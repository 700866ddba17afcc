//! Parts of the map file format: run-length coding of the ground layer
//! (each run of equal tiles, at most 256 long, is stored as the tile and
//! the run length minus one) and the stacks of units of an army.
use vstd::prelude::*;

verus! {

/// Length of the run of `m[i]` at `i`, counted on from `k`, at most 256.
pub open spec fn run_from(m: Seq<u8>, i: int, k: nat) -> nat
    decreases 256 - k,
{
    if k < 256 && i + k < m.len() && m[i + k] == m[i] {
        run_from(m, i, k + 1)
    } else {
        k
    }
}

/// The longest run (up to 256) of the tile at `i`.
pub open spec fn run_at(m: Seq<u8>, i: int) -> nat {
    run_from(m, i, 1)
}

/// The coding of `m[i..]`: pairs of tile and run length minus one, each run
/// as long as possible.
pub open spec fn rle_from(m: Seq<u8>, i: int) -> Seq<u8>
    decreases m.len() - i,
{
    if i < 0 || i >= m.len() {
        Seq::empty()
    } else {
        let r = run_at(m, i);
        proof {
            lemma_run_from(m, i, 1);
        }
        seq![m[i], (r - 1) as u8] + rle_from(m, i + r)
    }
}

/// The run-length coding of a ground layer.
pub open spec fn rle_encode(m: Seq<u8>) -> Seq<u8> {
    rle_from(m, 0)
}

/// The ground layer of a coding: each pair `(tile, n)` gives `n + 1` tiles.
pub open spec fn rle_decode(b: Seq<u8>) -> Seq<u8>
    decreases b.len(),
{
    if b.len() < 2 {
        Seq::empty()
    } else {
        Seq::new(b[1] as nat + 1, |k: int| b[0]) + rle_decode(b.subrange(2, b.len() as int))
    }
}

/// A run counted on from `k` over equal tiles stays within the layer and
/// holds equal tiles.
pub proof fn lemma_run_from(m: Seq<u8>, i: int, k: nat)
    requires
        0 <= i < m.len(),
        1 <= k <= 256,
        i + k <= m.len(),
        forall|q: int| i <= q < i + k ==> #[trigger] m[q] == m[i],
    ensures
        k <= run_from(m, i, k) <= 256,
        i + run_from(m, i, k) <= m.len(),
        forall|q: int| i <= q < i + run_from(m, i, k) ==> #[trigger] m[q] == m[i],
    decreases 256 - k,
{
    if k < 256 && i + k < m.len() && m[i + k] == m[i] {
        lemma_run_from(m, i, k + 1);
    }
}

/// Decoding the coding of a ground layer gives the layer back.
pub proof fn lemma_rle_roundtrip(m: Seq<u8>)
    ensures
        rle_decode(rle_encode(m)) == m,
{
    lemma_rle_roundtrip_from(m, 0);
    assert(m.subrange(0, m.len() as int) =~= m);
}

proof fn lemma_rle_roundtrip_from(m: Seq<u8>, i: int)
    requires
        0 <= i <= m.len(),
    ensures
        rle_decode(rle_from(m, i)) == m.subrange(i, m.len() as int),
    decreases m.len() - i,
{
    if i < m.len() {
        lemma_run_from(m, i, 1);
        let r = run_at(m, i);
        lemma_rle_roundtrip_from(m, i + r);
        let b = rle_from(m, i);
        let tail = rle_from(m, i + r);
        assert(b == seq![m[i], (r - 1) as u8] + tail);
        assert(b.subrange(2, b.len() as int) =~= tail);
        assert(Seq::new(b[1] as nat + 1, |k: int| b[0]) =~= m.subrange(i, i + r));
        assert(m.subrange(i, i + r) + m.subrange(i + r, m.len() as int) =~= m.subrange(i, m.len() as int));
    } else {
        assert(m.subrange(i, m.len() as int) =~= Seq::<u8>::empty());
    }
}

/// Encodes a ground layer: each maximal run of equal tiles, cut in pieces of
/// at most 256, as the tile followed by the piece's length minus one.
pub fn encode_rle(map: &[u8]) -> (r: Vec<u8>)
    ensures
        r@ == rle_encode(map@),
{
    let mut out: Vec<u8> = Vec::new();
    let n = map.len();
    let mut i: usize = 0;
    while i < n
        invariant
            n == map@.len(),
            i <= n,
            out@ + rle_from(map@, i as int) == rle_from(map@, 0),
        decreases n - i,
    {
        let tile = map[i];
        let mut run: usize = 1;
        while i + run < n && map[i + run] == tile && run < 256
            invariant
                n == map@.len(),
                i < n,
                1 <= run <= 256,
                i + run <= n,
                tile == map@[i as int],
                run_at(map@, i as int) == run_from(map@, i as int, run as nat),
            decreases 256 - run,
        {
            run = run + 1;
        }
        proof {
            assert(run_from(map@, i as int, run as nat) == run);
        }
        let ghost before = out@;
        out.push(tile);
        out.push((run - 1) as u8);
        proof {
            assert(out@ =~= before + seq![tile, (run - 1) as u8]);
            assert(out@ + rle_from(map@, (i + run) as int) =~= before + rle_from(map@, i as int));
        }
        i = i + run;
    }
    assert(out@ + rle_from(map@, i as int) =~= out@);
    out
}

/// Decodes a ground layer from pairs of tile and run length minus one.
pub fn decode_rle(bytes: &[u8]) -> (r: Vec<u8>)
    requires
        bytes@.len() % 2 == 0,
    ensures
        r@ == rle_decode(bytes@),
{
    let mut out: Vec<u8> = Vec::new();
    let n = bytes.len();
    let mut i: usize = 0;
    assert(bytes@.subrange(0, n as int) =~= bytes@);
    assert(out@ + bytes@ =~= bytes@);
    while i < n
        invariant
            n == bytes@.len(),
            n % 2 == 0,
            i <= n,
            i % 2 == 0,
            out@ + rle_decode(bytes@.subrange(i as int, n as int)) == rle_decode(bytes@),
        decreases n - i,
    {
        let tile = bytes[i];
        let count = bytes[i + 1] as usize + 1;
        let ghost before = out@;
        let ghost rest = bytes@.subrange(i as int, n as int);
        proof {
            assert(rest.subrange(2, rest.len() as int) =~= bytes@.subrange(i + 2, n as int));
        }
        let mut k: usize = 0;
        while k < count
            invariant
                k <= count,
                out@ == before + Seq::new(k as nat, |q: int| tile),
            decreases count - k,
        {
            out.push(tile);
            assert(out@ =~= before + Seq::new((k + 1) as nat, |q: int| tile));
            k = k + 1;
        }
        proof {
            assert(before + rle_decode(rest) =~= out@ + rle_decode(bytes@.subrange(i + 2, n as int)));
        }
        i = i + 2;
    }
    assert(bytes@.subrange(n as int, n as int) =~= Seq::<u8>::empty());
    assert(out@ + Seq::<u8>::empty() =~= out@);
    out
}

/// A stack of units in a map file: unit id plus one, count and level.
#[derive(Clone, Copy, Debug, PartialEq, Eq, Structural)]
pub struct ManyUnitsData {
    pub id: u8,
    pub amount: u8,
    pub level: u8,
}

/// The id stored for `id` with `offset`: when it fits in a byte and is not
/// 0 (which means none).
pub fn to_u8_id(id: usize, offset: usize) -> (r: Option<u8>)
    requires
        id + offset <= usize::MAX,
    ensures
        r == if 0 < id + offset <= 255 {
            Some((id + offset) as u8)
        } else {
            None::<u8>
        },
{
    let v = id + offset;
    if v <= 255 && v != 0 {
        Some(v as u8)
    } else {
        None
    }
}

/// The first stack of `stacks` holding units `id` of `level`.
pub open spec fn stack_index(stacks: Seq<(usize, u64, nat)>, id: usize, level: u64) -> Option<int>
    decreases stacks.len(),
{
    if stacks.len() == 0 {
        None
    } else {
        match stack_index(stacks.drop_last(), id, level) {
            Some(i) => Some(i),
            None => if stacks.last().0 == id && stacks.last().1 == level {
                Some(stacks.len() - 1)
            } else {
                None
            },
        }
    }
}

/// Troops `(id, level)` grouped into stacks of equal id and level, in the
/// order each group first appears, with the size of each group.
pub open spec fn stacks_of(troops: Seq<(usize, u64)>) -> Seq<(usize, u64, nat)>
    decreases troops.len(),
{
    if troops.len() == 0 {
        Seq::empty()
    } else {
        let s = stacks_of(troops.drop_last());
        let (id, level) = troops.last();
        match stack_index(s, id, level) {
            Some(i) => s.update(i, (id, level, s[i].2 + 1)),
            None => s.push((id, level, 1)),
        }
    }
}

/// The stacks of a garrison in a map file: `None` when a unit is not in the
/// registry of `units_len` units or its id does not fit in a byte, when
/// there are more than six stacks, or when a stack holds more than 255
/// units; else the stacks in order (level capped at 255), the rest empty.
pub open spec fn stacks_data(troops: Seq<(usize, u64)>, units_len: usize) -> Option<Seq<ManyUnitsData>> {
    let s = stacks_of(troops);
    if exists|k: int| 0 <= k < troops.len() && (#[trigger] troops[k].0 >= units_len || troops[k].0 + 1 > 255) {
        None
    } else if s.len() > 6 || exists|i: int| 0 <= i < s.len() && #[trigger] s[i].2 > 255 {
        None
    } else {
        Some(
            Seq::new(
                6,
                |i: int|
                    if i < s.len() {
                        ManyUnitsData {
                            id: (s[i].0 + 1) as u8,
                            level: (if s[i].1 > 255 { 255 } else { s[i].1 }) as u8,
                            amount: s[i].2 as u8,
                        }
                    } else {
                        ManyUnitsData { id: 0, level: 0, amount: 0 }
                    },
            ),
        )
    }
}

proof fn lemma_stack_index(stacks: Seq<(usize, u64, nat)>, id: usize, level: u64)
    ensures
        match stack_index(stacks, id, level) {
            Some(i) => 0 <= i < stacks.len() && stacks[i].0 == id && stacks[i].1 == level && forall|k: int|
                0 <= k < i ==> !(stacks[k].0 == id && stacks[k].1 == level),
            None => forall|k: int| 0 <= k < stacks.len() ==> !(stacks[k].0 == id && stacks[k].1 == level),
        },
    decreases stacks.len(),
{
    if stacks.len() > 0 {
        lemma_stack_index(stacks.drop_last(), id, level);
        assert forall|k: int| 0 <= k < stacks.len() - 1 implies stacks.drop_last()[k] == stacks[k] by {}
    }
}

proof fn lemma_stacks_bound(troops: Seq<(usize, u64)>)
    ensures
        stacks_of(troops).len() <= troops.len(),
        forall|i: int| 0 <= i < stacks_of(troops).len() ==> #[trigger] stacks_of(troops)[i].2 <= troops.len(),
    decreases troops.len(),
{
    if troops.len() > 0 {
        lemma_stacks_bound(troops.drop_last());
        lemma_stack_index(stacks_of(troops.drop_last()), troops.last().0, troops.last().1);
    }
}

/// The stacks of a garrison as stored in a map file (see `stacks_data`).
pub fn troops_to_stacks(troops: &[(usize, u64)], units_len: usize) -> (r: Option<[ManyUnitsData; 6]>)
    ensures
        match r {
            Some(a) => stacks_data(troops@, units_len) == Some(a@),
            None => stacks_data(troops@, units_len) is None,
        },
{
    let mut stacks: Vec<(usize, u64, u64)> = Vec::new();
    let mut t: usize = 0;
    while t < troops.len()
        invariant
            t <= troops@.len(),
            stacks@.map_values(|x: (usize, u64, u64)| (x.0, x.1, x.2 as nat)) == stacks_of(troops@.subrange(0, t as int)),
            forall|k: int| 0 <= k < t ==> !(#[trigger] troops@[k].0 >= units_len || troops@[k].0 + 1 > 255),
            forall|i: int| 0 <= i < stacks@.len() ==> #[trigger] stacks@[i].2 <= t,
            forall|i: int| 0 <= i < stacks@.len() ==> #[trigger] stacks@[i].0 + 1 <= 255,
        decreases troops.len() - t,
    {
        let (id, level) = troops[t];
        if id >= units_len || id + 1 > 255 {
            proof {
                assert(troops@[t as int].0 >= units_len || troops@[t as int].0 + 1 > 255);
            }
            return None;
        }
        let ghost sv = stacks@.map_values(|x: (usize, u64, u64)| (x.0, x.1, x.2 as nat));
        proof {
            let sub = troops@.subrange(0, t + 1);
            assert(sub.drop_last() =~= troops@.subrange(0, t as int));
            assert(sub.last() == troops@[t as int]);
            lemma_stack_index(sv, id, level);
        }
        let mut j: usize = 0;
        while j < stacks.len() && !(stacks[j].0 == id && stacks[j].1 == level)
            invariant
                j <= stacks@.len(),
                sv == stacks@.map_values(|x: (usize, u64, u64)| (x.0, x.1, x.2 as nat)),
                forall|k: int| 0 <= k < j ==> !(sv[k].0 == id && sv[k].1 == level),
            decreases stacks.len() - j,
        {
            j = j + 1;
        }
        if j < stacks.len() {
            assert(stack_index(sv, id, level) == Some(j as int)) by {
                if let Some(q) = stack_index(sv, id, level) {
                    if q < j {
                        assert(!(sv[q].0 == id && sv[q].1 == level));
                    }
                    if q > j {
                        assert(sv[j as int].0 == id && sv[j as int].1 == level);
                    }
                }
            }
            let (a, b, c) = stacks[j];
            stacks.set(j, (a, b, c + 1));
            assert(stacks@.map_values(|x: (usize, u64, u64)| (x.0, x.1, x.2 as nat)) =~= sv.update(
                j as int,
                (id, level, sv[j as int].2 + 1),
            ));
        } else {
            stacks.push((id, level, 1));
            assert(stacks@.map_values(|x: (usize, u64, u64)| (x.0, x.1, x.2 as nat)) =~= sv.push((id, level, 1)));
        }
        t = t + 1;
    }
    assert(troops@.subrange(0, troops@.len() as int) =~= troops@);
    let ghost sv = stacks_of(troops@);
    proof {
        assert(!exists|k: int| 0 <= k < troops@.len() && (#[trigger] troops@[k].0 >= units_len || troops@[k].0 + 1 > 255));
    }
    if stacks.len() > 6 {
        return None;
    }
    let mut out = [ManyUnitsData { id: 0, level: 0, amount: 0 };6];
    let mut i: usize = 0;
    while i < stacks.len()
        invariant
            i <= stacks@.len(),
            stacks@.len() <= 6,
            sv == stacks@.map_values(|x: (usize, u64, u64)| (x.0, x.1, x.2 as nat)),
            sv == stacks_of(troops@),
            !exists|k: int| 0 <= k < troops@.len() && (#[trigger] troops@[k].0 >= units_len || troops@[k].0 + 1 > 255),
            forall|k: int| 0 <= k < stacks@.len() ==> #[trigger] stacks@[k].0 + 1 <= 255,
            forall|k: int| 0 <= k < i ==> sv[k].2 <= 255,
            forall|k: int| 0 <= k < 6 ==> #[trigger] out@[k] == if k < i {
                ManyUnitsData {
                    id: (sv[k].0 + 1) as u8,
                    level: (if sv[k].1 > 255 { 255 } else { sv[k].1 }) as u8,
                    amount: sv[k].2 as u8,
                }
            } else {
                ManyUnitsData { id: 0, level: 0, amount: 0 }
            },
        decreases stacks.len() - i,
    {
        let (id, level, count) = stacks[i];
        if count > 255 {
            assert(sv[i as int].2 > 255);
            assert(exists|q: int| 0 <= q < sv.len() && #[trigger] sv[q].2 > 255);
            return None;
        }
        let lv: u8 = if level > 255 { 255 } else { level as u8 };
        out[i] = ManyUnitsData { id: (id + 1) as u8, level: lv, amount: count as u8 };
        i = i + 1;
    }
    proof {
        assert(!exists|q: int| 0 <= q < sv.len() && #[trigger] sv[q].2 > 255);
        assert(stacks_data(troops@, units_len) == Some(out@)) by {
            assert(out@ =~= Seq::new(
                6,
                |k: int|
                    if k < sv.len() {
                        ManyUnitsData {
                            id: (sv[k].0 + 1) as u8,
                            level: (if sv[k].1 > 255 { 255 } else { sv[k].1 }) as u8,
                            amount: sv[k].2 as u8,
                        }
                    } else {
                        ManyUnitsData { id: 0, level: 0, amount: 0 }
                    },
            ));
        }
    }
    Some(out)
}

} // verus!

//! The hardware id of the host: the first line of the machine-id file.
use vstd::prelude::*;

verus! {

/// Why no hardware id could be had.
#[derive(Clone, Debug, PartialEq, Eq)]
pub enum HwIdError {
    /// No machine-id file could be read.
    NotFound,
    /// A machine-id file was read but held no line (its contents).
    Malformed(String),
}

/// Files that hold the machine id, in the order they are tried.
pub open spec fn id_paths() -> Seq<Seq<char>> {
    seq!["/var/lib/dbus/machine-id"@, "/etc/machine-id"@]
}

/// Index of the first `'\n'` in `s`, if any.
pub open spec fn first_newline(s: Seq<char>) -> Option<int>
    decreases s.len(),
{
    if s.len() == 0 {
        None
    } else if s[0] == '\n' {
        Some(0)
    } else {
        match first_newline(s.drop_first()) {
            Some(i) => Some(i + 1),
            None => None,
        }
    }
}

/// The first line of a non-empty text, as `str::lines` gives it: up to the
/// first `'\n'`, without a `'\r'` just before it (a text without `'\n'` is
/// one line, kept whole).
pub open spec fn first_line(s: Seq<char>) -> Seq<char> {
    match first_newline(s) {
        Some(i) => if i > 0 && s[i - 1] == '\r' {
            s.subrange(0, i - 1)
        } else {
            s.subrange(0, i)
        },
        None => s,
    }
}

/// The line `get_id` takes, as `str::lines` gives the first line: when
/// the first `'\n'` of `s` is at `i`, the characters before it, with one
/// `'\r'` directly before the `'\n'` dropped and nothing else; without a
/// `'\n'`, the whole text.
pub proof fn lemma_first_line_law(s: Seq<char>, i: int)
    ensures
        0 <= i < s.len() && s[i] == '\n' && (forall|k: int| 0 <= k < i ==> s[k] != '\n') ==> first_line(s) == if i
            > 0 && s[i - 1] == '\r' {
            s.subrange(0, i - 1)
        } else {
            s.subrange(0, i)
        },
        (forall|k: int| 0 <= k < s.len() ==> s[k] != '\n') ==> first_line(s) == s,
{
    if 0 <= i < s.len() && s[i] == '\n' && (forall|k: int| 0 <= k < i ==> s[k] != '\n') {
        lemma_first_newline_at(s, i);
    }
    if forall|k: int| 0 <= k < s.len() ==> s[k] != '\n' {
        lemma_no_newline(s);
    }
}

proof fn lemma_first_newline_at(s: Seq<char>, i: int)
    requires
        0 <= i < s.len(),
        s[i] == '\n',
        forall|k: int| 0 <= k < i ==> s[k] != '\n',
    ensures
        first_newline(s) == Some(i),
    decreases i,
{
    if i > 0 {
        lemma_first_newline_at(s.drop_first(), i - 1);
    }
}

proof fn lemma_no_newline(s: Seq<char>)
    requires
        forall|k: int| 0 <= k < s.len() ==> s[k] != '\n',
    ensures
        first_newline(s) is None,
    decreases s.len(),
{
    if s.len() > 0 {
        lemma_no_newline(s.drop_first());
    }
}

/// Index of the first file that could be read.
pub open spec fn first_read(files: Seq<Option<String>>) -> Option<int>
    decreases files.len(),
{
    if files.len() == 0 {
        None
    } else if files[0] is Some {
        Some(0)
    } else {
        match first_read(files.drop_first()) {
            Some(i) => Some(i + 1),
            None => None,
        }
    }
}

proof fn lemma_first_newline(s: Seq<char>, i: int)
    requires
        0 <= i <= s.len(),
        forall|k: int| 0 <= k < i ==> s[k] != '\n',
    ensures
        i < s.len() && s[i] == '\n' ==> first_newline(s) == Some(i),
        i == s.len() ==> first_newline(s) is None,
    decreases i,
{
    if i > 0 {
        lemma_first_newline(s.drop_first(), i - 1);
    }
}

proof fn lemma_first_read(files: Seq<Option<String>>, i: int)
    requires
        0 <= i <= files.len(),
        forall|k: int| 0 <= k < i ==> files[k] is None,
    ensures
        i < files.len() && files[i] is Some ==> first_read(files) == Some(i),
        i == files.len() ==> first_read(files) is None,
    decreases i,
{
    if i > 0 {
        lemma_first_read(files.drop_first(), i - 1);
    }
}

/// The first line of `s`, if `s` is not empty.
fn first_line_of(s: &str) -> (r: Option<String>)
    ensures
        match r {
            Some(l) => s@.len() > 0 && l@ == first_line(s@),
            None => s@.len() == 0,
        },
{
    let n = s.unicode_len();
    if n == 0 {
        return None;
    }
    let mut i: usize = 0;
    while i < n && s.get_char(i) != '\n'
        invariant
            n == s@.len(),
            i <= n,
            forall|k: int| 0 <= k < i ==> s@[k] != '\n',
        decreases n - i,
    {
        i = i + 1;
    }
    proof {
        lemma_first_newline(s@, i as int);
    }
    let mut end = i;
    if i < n && end > 0 && s.get_char(end - 1) == '\r' {
        end = end - 1;
    }
    let l = s.substring_char(0, end);
    assert(l@ =~= first_line(s@));
    Some(l.to_owned())
}

/// The hardware id, given what reading each file of `id_paths()` gave
/// (`None`: the file could not be read): the first line of the first file
/// read; `Malformed` with its contents if that file is empty; `NotFound`
/// if none was read.
pub fn get_id(files: &[Option<String>]) -> (r: Result<String, HwIdError>)
    ensures
        match first_read(files@) {
            None => r == Err::<String, HwIdError>(HwIdError::NotFound),
            Some(i) => {
                let c = files@[i]->0@;
                if c.len() == 0 {
                    r matches Err(HwIdError::Malformed(m)) && m@ == c
                } else {
                    r matches Ok(id) && id@ == first_line(c)
                }
            },
        },
{
    let mut i: usize = 0;
    while i < files.len()
        invariant
            i <= files@.len(),
            forall|k: int| 0 <= k < i ==> files@[k] is None,
        decreases files.len() - i,
    {
        match &files[i] {
            Some(contents) => {
                proof {
                    lemma_first_read(files@, i as int);
                }
                return match first_line_of(contents.as_str()) {
                    Some(l) => Ok(l),
                    None => Err(HwIdError::Malformed(contents.as_str().to_owned())),
                };
            },
            None => {},
        }
        i = i + 1;
    }
    proof {
        lemma_first_read(files@, i as int);
    }
    Err(HwIdError::NotFound)
}

} // verus!

use dt_lib::object::{ObjectInfo, ObjectType};
use dt_lib::parse::{object_path_of, parse_objects, parse_unsigned, read_object, try_parse_objects};
use dt_lib::registry::Registry;

const DOC: &str = "[Tree0]\nIndex=1\nType=MapDeco\nId=4\nSize=2x3\nCategory=Nature\n[Bridge1]\nIndex=2\nType=Bridge\nGroup=1\nVariant=2\n";

#[test]
fn object_sprite_paths() {
    assert_eq!(object_path_of("Tree0"), "Tree000.png");
    assert_eq!(object_path_of("Castle"), "Castle.png");
    assert_eq!(object_path_of("Hut1234"), "Hut1234.png");
    assert_eq!(object_path_of("Bridge12a"), "Bridge12a.png");
    assert_eq!(object_path_of("Rock_07"), "Rock_007.png");
}

#[test]
fn unsigned_numbers_read_like_str_parse() {
    assert_eq!(parse_unsigned("+5", 10), Some(5));
    assert_eq!(parse_unsigned("007", 10), Some(7));
    assert_eq!(parse_unsigned("", 10), None);
    assert_eq!(parse_unsigned("+", 10), None);
    assert_eq!(parse_unsigned("-1", 10), None);
    assert_eq!(parse_unsigned("255", 255), Some(255));
    assert_eq!(parse_unsigned("256", 255), None);
    assert_eq!(parse_unsigned("1 2", 255), None);
}

#[test]
fn objects_are_read_and_registered() {
    let mut reg: Registry<ObjectInfo> = Registry::new();
    let (dir, assets) = parse_objects(DOC, &mut reg);
    assert_eq!(dir, "assets/Objects");
    assert_eq!(assets, vec!["Tree000.png".to_string(), "Bridge001.png".to_string()]);
    assert_eq!(reg.inner.len(), 2);
    let tree = &reg.inner[0];
    assert_eq!(tree.name, "Tree0");
    assert_eq!(tree.path, "Tree000.png");
    assert_eq!(tree.category, "Nature");
    assert_eq!(tree.obj_type, ObjectType::MapDeco { id: 4 });
    assert_eq!(tree.index, 1);
    assert_eq!(tree.size, (2, 3));
    let bridge = &reg.inner[1];
    assert_eq!(bridge.obj_type, ObjectType::Bridge { group: 1, variant: 2 });
    assert_eq!(bridge.size, (1, 1));
    assert_eq!(bridge.category, "");
    assert_eq!(reg.str_to_id(&"Bridge1".to_string()), Some(1));
}

#[test]
fn equal_object_registered_once() {
    let mut reg: Registry<ObjectInfo> = Registry::new();
    let doc = "[A1]\nIndex=1\nType=Building\n[A1]\nIndex=1\nType=Building\n";
    let (_, assets) = parse_objects(doc, &mut reg);
    assert_eq!(assets.len(), 2);
    assert_eq!(reg.inner.len(), 1);
    assert_eq!(reg.inner[0].obj_type, ObjectType::Building { group: 0, variant: 0 });
}

#[test]
fn unreadable_objects_are_refused() {
    let mut reg: Registry<ObjectInfo> = Registry::new();
    assert!(try_parse_objects("[A]\nIndex=1\nType=Tower\n", &mut reg).is_none());
    assert!(try_parse_objects("[A]\nType=MapDeco\n", &mut reg).is_none());
    assert!(try_parse_objects("[A]\nIndex=1\nType=MapDeco\nSize=2\n", &mut reg).is_none());
    assert!(try_parse_objects("[A]\nIndex=1\nType=Bridge\nGroup=300\n", &mut reg).is_none());
    assert!(try_parse_objects("[A]\nIndex=x\nType=Bridge\n", &mut reg).is_none());
    assert!(try_parse_objects("", &mut reg).is_none());
    assert_eq!(reg.inner.len(), 0);
    let got = try_parse_objects(DOC, &mut reg);
    assert_eq!(got.map(|(_, a)| a.len()), Some(2));
    assert_eq!(reg.inner.len(), 2);
}

#[test]
fn read_object_of_one_section() {
    let mut props: indexmap::IndexMap<String, String> = indexmap::IndexMap::new();
    props.insert("index".to_string(), "7".to_string());
    props.insert("type".to_string(), "Building".to_string());
    props.insert("group".to_string(), "2".to_string());
    props.insert("variant".to_string(), "5".to_string());
    props.insert("size".to_string(), "3,4".to_string());
    let o = read_object(&"Hut3".to_string(), &props).unwrap();
    assert_eq!(o.path, "Hut003.png");
    assert_eq!(o.obj_type, ObjectType::Building { group: 2, variant: 5 });
    assert_eq!(o.size, (3, 4));
    assert_eq!(o.index, 7);
    props.insert("type".to_string(), "MapDeco".to_string());
    props.insert("id".to_string(), "x".to_string());
    assert!(read_object(&"Hut3".to_string(), &props).is_none());
}

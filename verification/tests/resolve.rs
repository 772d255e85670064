use lumina_compiler::key::{
    Func, Method, Module, Record, RecordField, Sum, SumVariant, Trait, TypeKind, M,
};
use lumina_compiler::report::lookup_err_report;
use lumina_compiler::names::{str_eq, NameTable};
use lumina_compiler::resolve::{
    Entity, ImportError, Lookups, Mod, ModuleKind, NFunc, Namespace, Visibility,
};

/// The prelude as module 0, and a project root as module 1.
fn project() -> (Lookups, Module, Module) {
    let mut lookups = Lookups::new();
    let prelude = lookups.new_lib("std", "prelude".to_string());
    assert_eq!(prelude, lumina_compiler::key::prelude());
    let root = lookups.new_root_module(None);
    lookups.set_project(root);
    (lookups, prelude, root)
}

fn func_of<'a>(found: Result<Mod<Entity<'a>>, ImportError<'a>>) -> NFunc {
    match found {
        Ok(Mod { key: Entity::Func(func), .. }) => func,
        other => panic!("no function: {other:?}"),
    }
}

#[test]
fn a_path_into_the_prelude_is_not_held_to_visibility() {
    let (mut lookups, prelude, root) = project();
    let println = NFunc::Key(Func(7));
    let before =
        lookups.declare(prelude, Visibility::Project(prelude), "println", prelude, println);
    assert!(before.is_none());
    let found = lookups.resolve_func(root, &["std", "prelude", "println"]).unwrap();
    assert!(matches!(found.key, Entity::Func(NFunc::Key(Func(7)))));
    assert_eq!(found.module, prelude);
    assert_eq!(found.visibility, Visibility::Project(prelude));
}

#[test]
fn the_prelude_is_fallen_back_on_and_held_to_visibility() {
    let (mut lookups, prelude, root) = project();
    lookups.declare(prelude, Visibility::Public, "id", prelude, NFunc::Key(Func(1)));
    lookups.declare(prelude, Visibility::Project(prelude), "hidden", prelude, NFunc::Key(Func(2)));
    assert_eq!(func_of(lookups.resolve_func(root, &["id"])), NFunc::Key(Func(1)));
    // what the prelude holds but does not show is reported as not found in
    // the module that asked
    match lookups.resolve_func(root, &["hidden"]) {
        Err(ImportError::NotFound(module, "hidden")) => assert_eq!(module, root),
        other => panic!("no error of the first walk: {other:?}"),
    }
    match lookups.resolve_func(root, &["nothing"]) {
        Err(ImportError::NotFound(module, "nothing")) => assert_eq!(module, root),
        other => panic!("not reported as not found: {other:?}"),
    }
}

#[test]
fn the_prelude_does_not_shadow_what_the_module_declares() {
    let (mut lookups, prelude, root) = project();
    lookups.declare(prelude, Visibility::Public, "id", prelude, NFunc::Key(Func(1)));
    lookups.declare(root, Visibility::Public, "id", root, NFunc::Key(Func(9)));
    assert_eq!(func_of(lookups.resolve_func(root, &["id"])), NFunc::Key(Func(9)));
}

#[test]
fn project_visibility_goes_by_the_shared_root() {
    let (mut lookups, _, root) = project();
    let a = lookups.new_member_module(root);
    let b = lookups.new_member_module(root);
    let other_root = lookups.new_root_module(None);
    let c = lookups.new_member_module(other_root);
    lookups.declare(a, Visibility::Project(a), "foo", a, NFunc::Key(Func(3)));

    let from_b = lookups.resolve_entity_in(b, a, "foo", false);
    assert_eq!(func_of(from_b), NFunc::Key(Func(3)));
    match lookups.resolve_entity_in(c, a, "foo", false) {
        Err(ImportError::BadAccess(vis, "function", "foo")) => {
            assert_eq!(vis, Visibility::Project(a))
        }
        other => panic!("not refused: {other:?}"),
    }
    // the same through an import of `a`
    lookups.declare_module_link(b, Visibility::Public, "a".to_string(), a);
    lookups.declare_module_link(c, Visibility::Public, "a".to_string(), a);
    assert_eq!(func_of(lookups.resolve_func(b, &["a", "foo"])), NFunc::Key(Func(3)));
    assert!(matches!(
        lookups.resolve_func(c, &["a", "foo"]),
        Err(ImportError::BadAccess(Visibility::Project(_), "function", "foo"))
    ));
    // and without any check where visibility is switched off
    assert_eq!(func_of(lookups.resolve_entity_in(c, a, "foo", true)), NFunc::Key(Func(3)));

    assert!(lookups.is_valid_reachability(b, Visibility::Project(a)));
    assert!(lookups.is_valid_reachability(a, Visibility::Project(b)));
    assert!(lookups.is_valid_reachability(root, Visibility::Project(a)));
    assert!(!lookups.is_valid_reachability(c, Visibility::Project(a)));
    assert!(!lookups.is_valid_reachability(a, Visibility::Project(c)));
    assert!(lookups.is_valid_reachability(c, Visibility::Public));
}

#[test]
fn a_root_below_a_parent_belongs_to_the_project_of_the_parent() {
    let (mut lookups, _, root) = project();
    let nested = lookups.new_root_module(Some(root));
    let deeper = lookups.new_root_module(Some(nested));
    let member = lookups.new_member_module(deeper);
    let elsewhere = lookups.new_root_module(None);
    let stranger = lookups.new_member_module(elsewhere);
    assert!(lookups.is_valid_reachability(deeper, Visibility::Project(root)));
    assert!(lookups.is_valid_reachability(root, Visibility::Project(nested)));
    assert!(lookups.is_valid_reachability(member, Visibility::Project(deeper)));
    // the walk goes on from the root of a member to the parents of that root
    assert!(lookups.is_valid_reachability(member, Visibility::Project(root)));
    assert!(lookups.is_valid_reachability(root, Visibility::Project(member)));
    assert!(!lookups.is_valid_reachability(stranger, Visibility::Project(member)));
    assert!(!lookups.is_valid_reachability(member, Visibility::Project(elsewhere)));
}

#[test]
fn a_type_followed_by_a_name_is_a_member_of_the_type() {
    let (mut lookups, _, root) = project();
    let bar = TypeKind::Sum(Sum(4));
    assert!(lookups.declare(root, Visibility::Public, "Bar", root, bar).is_none());
    match lookups.resolve_func(root, &["Bar", "mk"]) {
        Ok(Mod { key: Entity::Member(ty, "mk"), module, visibility }) => {
            assert_eq!(ty, bar);
            assert_eq!(module, root);
            assert_eq!(visibility, Visibility::Public);
        }
        other => panic!("no member: {other:?}"),
    }
    // a function is no type, and three segments need a module
    lookups.declare(root, Visibility::Public, "f", root, NFunc::Key(Func(0)));
    assert!(matches!(
        lookups.resolve_func(root, &["f", "mk"]),
        Err(ImportError::ModNotFound(_, "f"))
    ));
    assert!(matches!(
        lookups.resolve_func(root, &["Bar", "mk", "more"]),
        Err(ImportError::ModNotFound(_, "Bar"))
    ));
    assert!(matches!(
        lookups.resolve_func(root, &["Baz", "mk"]),
        Err(ImportError::ModNotFound(_, "Baz"))
    ));
}

#[test]
fn the_namespace_asked_for_is_tried_first() {
    let (mut lookups, _, root) = project();
    let child = lookups.new_member_module(root);
    lookups.declare(root, Visibility::Public, "x", root, NFunc::Val(lumina_compiler::key::Val(1)));
    lookups.declare(root, Visibility::Public, "x", root, TypeKind::Record(Record(2)));
    lookups.declare_module_link(root, Visibility::Public, "x".to_string(), child);
    assert!(matches!(lookups.resolve_func(root, &["x"]), Ok(Mod { key: Entity::Func(_), .. })));
    assert!(matches!(lookups.resolve_type(root, &["x"]), Ok(Mod { key: Entity::Type(_), .. })));
    match lookups.resolve_module(root, &["x"]) {
        Ok(Mod { key: Entity::Module(module), .. }) => assert_eq!(module, child),
        other => panic!("no module: {other:?}"),
    }
    // what is in one namespace only is found whatever is tried first
    lookups.declare(root, Visibility::Public, "only", root, TypeKind::Trait(Trait(0)));
    assert!(matches!(lookups.resolve_func(root, &["only"]), Ok(Mod { key: Entity::Type(_), .. })));
    assert!(matches!(
        lookups.resolve_module(root, &["only"]),
        Ok(Mod { key: Entity::Type(TypeKind::Trait(Trait(0))), .. })
    ));
    assert!(matches!(
        lookups.resolve(root, Namespace::Types, &["only"], false),
        Ok(Mod { key: Entity::Type(_), .. })
    ));
}

#[test]
fn declare_hands_back_what_the_name_stood_for() {
    let (mut lookups, _, root) = project();
    let first = NFunc::Method(Trait(1), Method(2));
    let second = NFunc::SumVar(Sum(3), SumVariant(4));
    assert!(lookups.declare(root, Visibility::Public, "f", root, first).is_none());
    let previous = lookups.declare(root, Visibility::Project(root), "f", root, second).unwrap();
    assert_eq!(previous.key, first);
    assert_eq!(previous.visibility, Visibility::Public);
    assert_eq!(func_of(lookups.resolve_func(root, &["f"])), second);
    // a type of the same name is no duplicate
    assert!(lookups.declare(root, Visibility::Public, "f", root, TypeKind::Sum(Sum(0))).is_none());
}

#[test]
fn libraries_are_found_by_section_and_name() {
    let (mut lookups, _, root) = project();
    let list = lookups.new_lib("std", "list".to_string());
    let json = lookups.new_lib("ext", "json".to_string());
    lookups.declare(list, Visibility::Public, "map", list, NFunc::Key(Func(1)));
    lookups.declare(json, Visibility::Public, "parse", json, NFunc::Key(Func(2)));
    assert_eq!(func_of(lookups.resolve_func(root, &["std", "list", "map"])), NFunc::Key(Func(1)));
    assert_eq!(func_of(lookups.resolve_func(root, &["ext", "json", "parse"])), NFunc::Key(Func(2)));
    match lookups.resolve_module(root, &["std", "list"]) {
        Ok(Mod { key: Entity::Module(module), visibility: Visibility::Public, .. }) => {
            assert_eq!(module, list)
        }
        other => panic!("no module: {other:?}"),
    }
    assert!(matches!(
        lookups.resolve_func(root, &["std", "json", "parse"]),
        Err(ImportError::LibNotInstalled("json"))
    ));
    assert!(matches!(
        lookups.resolve_func(root, &["prelude", "list"]),
        Err(ImportError::LibNotInstalled("list"))
    ));
}

#[test]
fn lib_should_be_included_names_what_is_not_loaded() {
    let (mut lookups, _, _) = project();
    lookups.new_lib("std", "list".to_string());
    lookups.new_lib("ext", "json".to_string());
    let path = ["std", "io", "file", "open"];
    match lookups.lib_should_be_included(&path) {
        Some((lib, rest)) => {
            assert_eq!(lib, "io");
            assert_eq!(rest, &["file", "open"]);
        }
        None => panic!("a library that is not loaded was passed over"),
    }
    assert!(lookups.lib_should_be_included(&["std", "list", "map"]).is_none());
    assert!(lookups.lib_should_be_included(&["std", "prelude"]).is_none());
    // what is installed elsewhere is not loaded as a standard library
    assert!(lookups.lib_should_be_included(&["std", "json"]).is_some());
    assert!(lookups.lib_should_be_included(&["ext", "nothing", "f"]).is_none());
    assert!(lookups.lib_should_be_included(&["list"]).is_none());
}

#[test]
fn project_starts_at_the_project_root() {
    let (mut lookups, _, root) = project();
    let member = lookups.new_member_module(root);
    lookups.declare(root, Visibility::Project(root), "top", root, NFunc::Key(Func(5)));
    assert!(matches!(
        lookups.resolve_func(member, &["top"]),
        Err(ImportError::NotFound(_, "top"))
    ));
    assert_eq!(func_of(lookups.resolve_func(member, &["project", "top"])), NFunc::Key(Func(5)));
    match lookups.resolve_module(member, &["project"]) {
        Ok(Mod { key: Entity::Module(module), .. }) => assert_eq!(module, root),
        other => panic!("no module: {other:?}"),
    }
}

#[test]
fn langitems_are_resolved_from_the_root_whatever_their_visibility() {
    let (mut lookups, _, root) = project();
    let other_root = lookups.new_root_module(None);
    lookups.declare_module_link(root, Visibility::Project(other_root), "hooks".to_string(), other_root);
    lookups.declare(other_root, Visibility::Project(other_root), "alloc", other_root, NFunc::Key(Func(8)));
    assert!(matches!(
        lookups.resolve_func(root, &["hooks", "alloc"]),
        Err(ImportError::BadAccess(_, "module", "hooks"))
    ));
    assert_eq!(func_of(lookups.resolve_langitem(&["hooks", "alloc"])), NFunc::Key(Func(8)));
}

#[test]
fn imports_of_the_root_are_seen_by_its_members() {
    let (mut lookups, _, root) = project();
    let member = lookups.new_member_module(root);
    let util = lookups.new_member_module(root);
    lookups.declare_module_link(root, Visibility::Public, "util".to_string(), util);
    let found = lookups.resolve_import(member, "util").unwrap();
    assert_eq!(found.key, util);
    assert_eq!(found.module, root);
    assert!(lookups.resolve_import(member, "other").is_none());
    assert!(lookups.resolve_import(root, "member").is_none());
    lookups.declare(util, Visibility::Public, "f", util, NFunc::Key(Func(1)));
    assert_eq!(func_of(lookups.resolve_func(member, &["util", "f"])), NFunc::Key(Func(1)));
}

#[test]
fn accessors_of_one_name_pile_up() {
    let (mut lookups, _, root) = project();
    assert!(lookups.resolve_accessor(root, "x").is_empty());
    lookups.declare_accessor(root, Visibility::Public, "x", Record(0), RecordField(1));
    lookups.declare_accessor(root, Visibility::Project(root), "x", Record(2), RecordField(0));
    lookups.declare_accessor(root, Visibility::Public, "y", Record(0), RecordField(0));
    let found = lookups.resolve_accessor(root, "x");
    assert_eq!(found.len(), 2);
    assert_eq!(found[0].key, (Record(0), RecordField(1)));
    assert_eq!(found[1].key, (Record(2), RecordField(0)));
    assert_eq!(found[1].visibility, Visibility::Project(root));
    assert_eq!(found[0].module, root);
    assert_eq!(lookups.resolve_accessor(root, "y").len(), 1);
}

#[test]
fn the_empty_rest_of_a_path_is_the_module_itself() {
    let (mut lookups, _, root) = project();
    let child = lookups.new_member_module(root);
    lookups.declare_module_link(root, Visibility::Public, "child".to_string(), child);
    match lookups.resolve_func(root, &["child"]) {
        Ok(Mod { key: Entity::Module(module), module: host, .. }) => {
            assert_eq!(module, child);
            assert_eq!(host, root);
        }
        other => panic!("no module: {other:?}"),
    }
}

#[test]
fn describe_names_the_kind_of_entity() {
    assert_eq!(Entity::Module(Module(0)).describe(), "module");
    assert_eq!(Entity::Func(NFunc::Key(Func(0))).describe(), "function");
    assert_eq!(Entity::Type(TypeKind::Record(Record(0))).describe(), "type");
    assert_eq!(Entity::Member(TypeKind::Record(Record(0)), "x").describe(), "member");
}

#[test]
fn visibility_from_the_public_flag() {
    assert_eq!(Visibility::from_public_flag(Module(3), true), Visibility::Public);
    assert_eq!(Visibility::from_public_flag(Module(3), false), Visibility::Project(Module(3)));
    assert_eq!(ModuleKind::default(), ModuleKind::Root { parent: None });
}

#[test]
fn mod_map_changes_the_key_only() {
    let m = Mod { visibility: Visibility::Project(Module(1)), module: Module(2), key: Func(3) };
    let mapped = m.map(NFunc::Key);
    assert_eq!(mapped.key, NFunc::Key(Func(3)));
    assert_eq!(mapped.module, Module(2));
    assert_eq!(mapped.visibility, Visibility::Project(Module(1)));
}

#[test]
fn names_are_held_against_each_other_byte_by_byte() {
    assert!(str_eq("", ""));
    assert!(str_eq("prelude", "prelude"));
    assert!(!str_eq("prelude", "prelud"));
    assert!(!str_eq("std", "ext"));
    assert!(str_eq("\u{e9}t\u{e9}", "\u{e9}t\u{e9}"));
    assert!(!str_eq("\u{e9}", "e"));
}

#[test]
fn a_name_table_keeps_one_value_for_each_name() {
    let mut table: NameTable<u32> = NameTable::new();
    assert_eq!(table.insert("a".to_string(), 1), None);
    assert_eq!(table.insert("b".to_string(), 2), None);
    assert_eq!(table.insert("a".to_string(), 3), Some(1));
    assert_eq!(table.len(), 2);
    assert_eq!(table.get("a"), Some(&3));
    assert_eq!(table.get("b"), Some(&2));
    assert_eq!(table.get("c"), None);
    assert_eq!(table.name_at(0), "a");
    assert_eq!(table.value_at(1), &2);
    let mut lists: NameTable<Vec<u8>> = NameTable::new();
    lists.push_to("x", 1);
    lists.push_to("y", 2);
    lists.push_to("x", 3);
    assert_eq!(lists.get("x"), Some(&vec![1, 3]));
    assert_eq!(lists.get("y"), Some(&vec![2]));
}

#[test]
fn the_field_lookup_lists_the_records_of_each_name() {
    let (mut lookups, _, root) = project();
    let member = lookups.new_member_module(root);
    lookups.declare_accessor(root, Visibility::Public, "x", Record(0), RecordField(1));
    lookups.declare_accessor(root, Visibility::Public, "y", Record(1), RecordField(0));
    lookups.declare_accessor(root, Visibility::Public, "x", Record(2), RecordField(0));
    lookups.declare_accessor(member, Visibility::Public, "x", Record(3), RecordField(0));
    let fields = lookups.to_field_lookup();
    assert_eq!(fields.len(), 3);
    assert_eq!(fields[0].len(), 0);
    let of_root = &fields[root.0 as usize];
    assert_eq!(of_root.len(), 2);
    assert_eq!(
        of_root.get("x"),
        Some(&vec![M { module: root, value: Record(0) }, M { module: root, value: Record(2) }])
    );
    assert_eq!(of_root.get("y"), Some(&vec![M { module: root, value: Record(1) }]));
    assert_eq!(of_root.get("z"), None);
    assert_eq!(
        fields[member.0 as usize].get("x"),
        Some(&vec![M { module: member, value: Record(3) }])
    );
}

#[test]
fn lookup_errors_are_put_into_words() {
    let report = lookup_err_report("function", ImportError::LibNotInstalled("json"), "main");
    assert_eq!(report.title, "library not found");
    assert_eq!(report.line, "no library named json is installed");
    assert_eq!(report.text, None);

    let report = lookup_err_report("type", ImportError::NotFound(Module(1), "Foo"), "main");
    assert_eq!(report.title, "identifier not found");
    assert_eq!(report.line, "no type named Foo");
    assert_eq!(report.text, None);

    let report = lookup_err_report("type", ImportError::ModNotFound(Module(1), "util"), "main");
    assert_eq!(report.title, "module not found");
    assert_eq!(report.line, "`main` has no module named `util`");

    let hidden = Visibility::Project(Module(2));
    let report = lookup_err_report("type", ImportError::BadAccess(hidden, "module", "util"), "main");
    assert_eq!(report.title, "module not found");
    assert_eq!(report.line, "there is a module named util but it's not public");
    assert_eq!(report.text, None);

    let report =
        lookup_err_report("type", ImportError::BadAccess(hidden, "function", "f"), "main");
    assert_eq!(report.title, "identifier not found");
    assert_eq!(report.line, "");
    assert_eq!(report.text, Some("there is a function named f but it's not public".to_string()));
}

use wrpc::polyfill::{
    call, exported_function, imported_instance, provided_by_host, store_results, CallError,
    DynamicResourceType, Import, ImportItem, Interface, ItemKind, Polyfill, ResourcePaths, Step,
    TypeDef, TypeKind,
};

fn resource(instance: &str, name: &str) -> DynamicResourceType {
    DynamicResourceType {
        instance: instance.to_string(),
        name: name.to_string(),
    }
}

fn type_def(name: &str, kind: TypeKind) -> TypeDef {
    TypeDef {
        name: name.to_string(),
        kind,
    }
}

fn interface(functions: &[&str], types: Vec<TypeDef>) -> ImportItem {
    ImportItem::Interface(Interface {
        functions: functions.iter().map(|f| f.to_string()).collect(),
        types,
    })
}

fn import(name: &str, item: ImportItem) -> Import {
    Import {
        name: name.to_string(),
        item,
    }
}

fn imports() -> Vec<Import> {
    vec![
        import("wasi:io/poll@0.2.0", interface(&["poll"], vec![])),
        import("run", ImportItem::Other),
        import("test:a/gone", ImportItem::MissingInterface),
        import(
            "test:a/store",
            interface(
                &["open", "close"],
                vec![
                    type_def("error", TypeKind::Other),
                    type_def("bucket", TypeKind::Resource(resource("test:a/store", "bucket"))),
                    type_def("used", TypeKind::Resource(resource("test:a/other", "used"))),
                    type_def("lost", TypeKind::Missing),
                    type_def("odd", TypeKind::Unresolved),
                    type_def("cursor", TypeKind::Resource(resource("test:a/store", "cursor"))),
                ],
            ),
        ),
        import("test:a/empty", interface(&[], vec![])),
    ]
}

#[test]
fn imports_are_walked_in_order() {
    let imports = imports();
    let walk = Polyfill::new(&imports);
    assert_eq!(walk.step(), Step::Instance(2));
    let walk = walk.instance(true);
    assert_eq!(walk.step(), Step::Instance(3));
    let walk = walk.instance(true);
    assert_eq!(walk.step(), Step::Function(3, 0));
    let walk = walk.function();
    assert_eq!(walk.step(), Step::Function(3, 1));
    let walk = walk.function();
    assert_eq!(walk.step(), Step::Resource(3, 1));
    let walk = walk.resource(Some(40));
    assert_eq!(walk.step(), Step::Resource(3, 5));
    let walk = walk.resource(None);
    assert_eq!(walk.step(), Step::Instance(4));
    let walk = walk.instance(true);
    assert_eq!(walk.step(), Step::Finished);
    let paths = walk.into_paths();
    assert_eq!(paths.get(&resource("test:a/store", "bucket")), Some(40));
    assert_eq!(paths.get(&resource("test:a/store", "cursor")), None);
}

#[test]
fn an_instance_that_cannot_be_defined_is_left() {
    let imports = imports();
    let walk = Polyfill::new(&imports).instance(false);
    assert_eq!(walk.step(), Step::Instance(3));
    let walk = walk.instance(false);
    assert_eq!(walk.step(), Step::Instance(4));
    assert_eq!(walk.instance(false).step(), Step::Finished);
}

/// Walks the imports, where the instance `left` cannot be defined and each resource type gets the
/// number of those before it, and says by name what was called for.
fn walk(imports: &Vec<Import>, left: &str) -> (Vec<String>, ResourcePaths) {
    let mut called = Vec::new();
    let mut index = 0;
    let mut walk = Polyfill::new(imports);
    loop {
        walk = match walk.step() {
            Step::Instance(i) => {
                called.push(imports[i].name.clone());
                walk.instance(imports[i].name != left)
            }
            Step::Function(i, k) => {
                let ImportItem::Interface(interface) = &imports[i].item else {
                    panic!("`{}` is no interface", imports[i].name)
                };
                called.push(format!("{}#{}", imports[i].name, interface.functions[k]));
                walk.function()
            }
            Step::Resource(i, k) => {
                let ImportItem::Interface(interface) = &imports[i].item else {
                    panic!("`{}` is no interface", imports[i].name)
                };
                called.push(format!("{}/{}", imports[i].name, interface.types[k].name));
                index += 1;
                walk.resource(Some(index))
            }
            Step::Finished => return (called, walk.into_paths()),
        };
    }
}

#[test]
fn skipped_imports_make_no_difference() {
    let imports = imports();
    let mut kept = self::imports();
    kept.retain(|import| import.name != "wasi:io/poll@0.2.0" && import.item != ImportItem::Other);
    assert_eq!(kept.len(), 3);
    for left in ["", "test:a/store", "test:a/gone"] {
        let (called, paths) = walk(&imports, left);
        let (kept_called, kept_paths) = walk(&kept, left);
        assert_eq!(called, kept_called);
        for name in ["bucket", "cursor", "used"] {
            let ty = resource("test:a/store", name);
            assert_eq!(paths.get(&ty), kept_paths.get(&ty));
        }
    }
    assert_eq!(
        walk(&kept, "test:a/gone").0,
        vec![
            "test:a/gone",
            "test:a/store",
            "test:a/store#open",
            "test:a/store#close",
            "test:a/store/bucket",
            "test:a/store/cursor",
            "test:a/empty",
        ]
    );
}

#[test]
fn a_walk_collects_the_resources_of_the_instances_that_were_defined() {
    let mut imports = imports();
    let (_, paths) = walk(&imports, "");
    assert_eq!(paths.get(&resource("test:a/store", "bucket")), Some(1));
    assert_eq!(paths.get(&resource("test:a/store", "cursor")), Some(2));
    assert_eq!(paths.get(&resource("test:a/other", "used")), None);
    assert_eq!(paths.get(&resource("test:a/store", "used")), None);
    let (_, paths) = walk(&imports, "test:a/store");
    assert_eq!(paths.get(&resource("test:a/store", "bucket")), None);
    imports.push(import(
        "test:a/store",
        interface(
            &[],
            vec![type_def("bucket", TypeKind::Resource(resource("test:a/store", "bucket")))],
        ),
    ));
    let (_, paths) = walk(&imports, "");
    assert_eq!(paths.get(&resource("test:a/store", "bucket")), Some(3));
    assert_eq!(paths.get(&resource("test:a/store", "cursor")), Some(2));
}

#[test]
fn what_the_host_provides_is_not_polyfilled() {
    let provided = [
        "wasi:cli/environment@0.2.0",
        "wasi:cli/exit@0.2.0",
        "wasi:cli/stderr@0.2.0",
        "wasi:cli/stdin@0.2.0",
        "wasi:cli/stdout@0.2.0",
        "wasi:cli/terminal-input@0.2.0",
        "wasi:cli/terminal-output@0.2.0",
        "wasi:cli/terminal-stderr@0.2.0",
        "wasi:cli/terminal-stdin@0.2.0",
        "wasi:cli/terminal-stdout@0.2.0",
        "wasi:clocks/monotonic-clock@0.2.0",
        "wasi:clocks/wall-clock@0.2.0",
        "wasi:filesystem/preopens@0.2.0",
        "wasi:filesystem/types@0.2.0",
        "wasi:http/incoming-handler@0.2.0",
        "wasi:http/outgoing-handler@0.2.0",
        "wasi:http/types@0.2.0",
        "wasi:io/error@0.2.0",
        "wasi:io/poll@0.2.0",
        "wasi:io/streams@0.2.0",
        "wasi:sockets/tcp@0.2.0",
    ];
    let mut imports = Vec::new();
    for name in provided {
        assert!(provided_by_host(&name.to_string()));
        imports.push(import(name, interface(&["f"], vec![])));
    }
    assert_eq!(Polyfill::new(&imports).step(), Step::Finished);
    assert!(!provided_by_host(&"wasi:sockets/udp@0.2.0".to_string()));
    assert!(!provided_by_host(&"wasi:io/poll@0.2.1".to_string()));
    assert!(!provided_by_host(&String::new()));
}

#[test]
fn the_last_index_of_a_type_stays() {
    let paths = ResourcePaths::new()
        .insert(resource("a", "x"), 1)
        .insert(resource("a", "y"), 2)
        .insert(resource("a", "x"), 3);
    assert_eq!(paths.get(&resource("a", "x")), Some(3));
    assert_eq!(paths.get(&resource("a", "y")), Some(2));
    assert_eq!(paths.get(&resource("b", "x")), None);
}

#[test]
fn calls_are_not_supported() {
    assert_eq!(call(true), Err(CallError::Unsupported));
    assert_eq!(call(false), Err(CallError::Params));
}

#[test]
fn polyfilled_functions_are_looked_up() {
    assert_eq!(imported_instance(None), Err(CallError::ImportNotFound));
    assert_eq!(
        imported_instance(Some(ItemKind::Function)),
        Err(CallError::NotInstance)
    );
    assert_eq!(imported_instance(Some(ItemKind::Instance)), Ok(()));
    assert_eq!(exported_function(None), Err(CallError::NotExported));
    assert_eq!(
        exported_function(Some(ItemKind::Other)),
        Err(CallError::NotFunction)
    );
    assert_eq!(exported_function(Some(ItemKind::Function)), Ok(()));
}

#[test]
fn results_are_stored_while_there_is_room() {
    let mut results = vec![0, 0, 0];
    assert_eq!(store_results(vec![1, 2], &mut results), Ok(()));
    assert_eq!(results, vec![1, 2, 0]);
    let mut results = vec![0];
    assert_eq!(
        store_results(vec![1, 2], &mut results),
        Err(CallError::InvalidResults)
    );
    assert_eq!(results, vec![1]);
}

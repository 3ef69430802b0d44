use tfocus::executor::{addresses, target_flags};
use tfocus::selection::{create_selection_items, number_entries, parse_selection, SelectionItem};
use tfocus::selector::SelectItem;
use tfocus::types::{Resource, Target, TfocusError};

#[test]
fn file_entry_becomes_a_row() {
    let rows = create_selection_items(&[SelectionItem::File(1, "main.tf".to_string())]);
    assert_eq!(
        rows,
        vec![SelectItem {
            display: "   1 [File]          main.tf".to_string(),
            search_text: "main.tf".to_string(),
            data: "f:main.tf".to_string(),
        }]
    );
}

#[test]
fn module_entry_becomes_a_row() {
    let rows = create_selection_items(&[SelectionItem::Module(12, "net".to_string())]);
    assert_eq!(
        rows,
        vec![SelectItem {
            display: "  12 [Module]        net".to_string(),
            search_text: "net".to_string(),
            data: "m:net".to_string(),
        }]
    );
}

#[test]
fn resource_entry_becomes_a_row() {
    let rows =
        create_selection_items(&[SelectionItem::Resource(345, Resource::new("aws_instance", "web"))]);
    assert_eq!(
        rows,
        vec![SelectItem {
            display: " 345 [Resource]      aws_instance.web".to_string(),
            search_text: "aws_instance.web".to_string(),
            data: "r:aws_instance.web".to_string(),
        }]
    );
}

#[test]
fn module_call_entry_becomes_a_module_row() {
    let rows = create_selection_items(&[SelectionItem::Resource(7, Resource::module("net"))]);
    assert_eq!(
        rows,
        vec![SelectItem {
            display: "   7 [Module]        module.net".to_string(),
            search_text: "module.net".to_string(),
            data: "m:net".to_string(),
        }]
    );
}

#[test]
fn rows_are_laid_out_in_columns() {
    let numbers: Vec<usize> = vec![0, 1, 9, 10, 99, 100, 999, 1000, 9999, 10000, 123456, usize::MAX];
    for n in numbers {
        let rows = create_selection_items(&[
            SelectionItem::File(n, "a/b.tf".to_string()),
            SelectionItem::Module(n, "m".to_string()),
            SelectionItem::Resource(n, Resource::new("t", "n")),
        ]);
        assert_eq!(rows[0].display, format!("{:4} {:15} {}", n, "[File]", "a/b.tf"));
        assert_eq!(rows[1].display, format!("{:4} {:15} {}", n, "[Module]", "m"));
        assert_eq!(rows[2].display, format!("{:4} {:15} {}", n, "[Resource]", "t.n"));
    }
}

#[test]
fn rows_keep_the_order_of_entries() {
    let entries = vec![
        SelectionItem::File(1, "b.tf".to_string()),
        SelectionItem::File(2, "a.tf".to_string()),
        SelectionItem::Module(3, "m".to_string()),
    ];
    let rows = create_selection_items(&entries);
    assert_eq!(rows.len(), 3);
    assert_eq!(rows[0].data, "f:b.tf");
    assert_eq!(rows[1].data, "f:a.tf");
    assert_eq!(rows[2].data, "m:m");
    assert_eq!(create_selection_items(&[]), Vec::<SelectItem>::new());
}

#[test]
fn entries_are_numbered_from_one() {
    let files = vec!["a.tf".to_string(), "b.tf".to_string()];
    let modules = vec!["net".to_string()];
    let resources = vec![Resource::new("t", "n"), Resource::module("net")];
    assert_eq!(
        number_entries(&files, &modules, &resources),
        vec![
            SelectionItem::File(1, "a.tf".to_string()),
            SelectionItem::File(2, "b.tf".to_string()),
            SelectionItem::Module(3, "net".to_string()),
            SelectionItem::Resource(4, Resource::new("t", "n")),
            SelectionItem::Resource(5, Resource::module("net")),
        ]
    );
    assert_eq!(number_entries(&[], &[], &[]), Vec::<SelectionItem>::new());
    assert_eq!(
        number_entries(&[], &[], &resources[..1]),
        vec![SelectionItem::Resource(1, Resource::new("t", "n"))]
    );
}

#[test]
fn file_payload_is_decoded() {
    assert_eq!(parse_selection("f:main.tf"), Ok(Target::File("main.tf".to_string())));
    assert_eq!(parse_selection("f:a/b.c/d.tf"), Ok(Target::File("a/b.c/d.tf".to_string())));
    assert_eq!(parse_selection("f:m:x"), Ok(Target::File("m:x".to_string())));
    assert_eq!(parse_selection("f:"), Ok(Target::File(String::new())));
}

#[test]
fn module_payload_is_decoded() {
    assert_eq!(parse_selection("m:net"), Ok(Target::Module("net".to_string())));
    assert_eq!(parse_selection("m:a.b"), Ok(Target::Module("a.b".to_string())));
}

#[test]
fn resource_payload_is_decoded() {
    assert_eq!(
        parse_selection("r:aws_instance.web"),
        Ok(Target::Resource("aws_instance".to_string(), "web".to_string()))
    );
    assert_eq!(parse_selection("r:a.b"), Ok(Target::Resource("a".to_string(), "b".to_string())));
    assert_eq!(
        parse_selection("r:t\u{e9}.n\u{e9}"),
        Ok(Target::Resource("t\u{e9}".to_string(), "n\u{e9}".to_string()))
    );
}

#[test]
fn unknown_payload_is_refused() {
    for payload in ["", "f", "m", "r", "x:abc", "main.tf", " f:main.tf", "F:main.tf", "fmain.tf", ":f"] {
        assert_eq!(parse_selection(payload), Err(TfocusError::InvalidTargetSelection), "{:?}", payload);
    }
}

#[test]
fn resource_payload_needs_two_parts() {
    for payload in ["r:", "r:abc", "r:.", "r:.b", "r:a.", "r:a.b.c", "r:a..b", "r:.a.b", "r:a.b."] {
        assert_eq!(parse_selection(payload), Err(TfocusError::InvalidTargetSelection), "{:?}", payload);
    }
}

#[test]
fn payload_comes_back_as_the_target() {
    let entries = vec![
        SelectionItem::File(1, "dir/main.tf".to_string()),
        SelectionItem::Module(2, "net".to_string()),
        SelectionItem::Resource(3, Resource::new("aws_instance", "web")),
        SelectionItem::Resource(4, Resource::module("db")),
    ];
    let rows = create_selection_items(&entries);
    assert_eq!(parse_selection(&rows[0].data), Ok(Target::File("dir/main.tf".to_string())));
    assert_eq!(parse_selection(&rows[1].data), Ok(Target::Module("net".to_string())));
    assert_eq!(
        parse_selection(&rows[2].data),
        Ok(Target::Resource("aws_instance".to_string(), "web".to_string()))
    );
    assert_eq!(parse_selection(&rows[3].data), Ok(Target::Module("db".to_string())));
}

#[test]
fn addresses_name_type_and_name() {
    assert_eq!(Resource::new("aws_instance", "web").address(), "aws_instance.web");
    assert_eq!(Resource::module("net").address(), "module.net");
    let resources = vec![Resource::new("aws_instance", "web"), Resource::module("net")];
    assert_eq!(
        addresses(&resources),
        vec!["aws_instance.web".to_string(), "module.net".to_string()]
    );
    assert_eq!(addresses(&[]), Vec::<String>::new());
}

#[test]
fn each_resource_gets_a_target_flag() {
    let resources = vec![Resource::new("aws_instance", "web"), Resource::module("net")];
    assert_eq!(
        target_flags(&resources),
        vec!["-target=aws_instance.web".to_string(), "-target=module.net".to_string()]
    );
    assert_eq!(target_flags(&[]), Vec::<String>::new());
}

#[test]
fn copies_are_equal() {
    let r = Resource::new("a", "b");
    assert_eq!(r.clone(), r);
    let t = Target::Resource("a".to_string(), "b".to_string());
    assert_eq!(t.clone(), t);
    assert_eq!(Target::File("x".to_string()).clone(), Target::File("x".to_string()));
    assert_eq!(Target::Module("x".to_string()).clone(), Target::Module("x".to_string()));
}

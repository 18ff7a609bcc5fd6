use vcd2v::model::{ScopeItem, ScopeNode, VarKind, Variable};
use vcd2v::resolver::{collect_all_signals, find_vcd_var, get_signal_map};
use vcd2v::signal_map::SignalMap;

const HEADER: &[u8] = b"
    $scope module a $end
    $scope module b $end
    $var wire 1 ! x $end
    $var wire 1 # y $end
    $var wire 8 $ z $end
    $upscope $end
    $upscope $end
    $enddefinitions $end
";

fn code_key(code: vcd::IdCode) -> u64 {
    let mut result: u64 = 0;
    for b in code.to_string().bytes().rev() {
        result = result * 94 + (b - b'!') as u64 + 1;
    }
    result - 1
}

fn convert_items(items: &[vcd::ScopeItem]) -> Vec<ScopeItem> {
    items
        .iter()
        .map(|item| match item {
            vcd::ScopeItem::Scope(sc) => ScopeItem::Scope(ScopeNode {
                name: sc.identifier.clone(),
                children: convert_items(&sc.children),
            }),
            vcd::ScopeItem::Var(v) => ScopeItem::Var(Variable {
                kind: if v.var_type == vcd::VarType::Wire {
                    VarKind::Wire
                } else {
                    VarKind::Other
                },
                width: v.size as u64,
                code: code_key(v.code),
                name: v.reference.clone(),
            }),
        })
        .collect()
}

fn parsed_tree() -> Vec<ScopeItem> {
    let mut parser = vcd::Parser::new(HEADER);
    let header = parser.parse_header().unwrap();
    convert_items(&header.items)
}

fn id(s: &str) -> u64 {
    code_key(s.parse::<vcd::IdCode>().unwrap())
}

#[test]
fn lib_test_valid() {
    let items = parsed_tree();
    let var = find_vcd_var(&items, "a.b.x").unwrap();
    assert_eq!(var.name, "x");
}

#[test]
fn lib_test_invalid() {
    let items = parsed_tree();
    assert!(find_vcd_var(&items, "a.b.c").is_none());
    assert!(find_vcd_var(&items, "a.c.z").is_none());
}

#[test]
fn signal_map_test_valid() {
    let items = parsed_tree();
    let signals =
        get_signal_map(&items, &vec!["q=a.b.x".to_string(), "a.b.y".to_string()]).unwrap();
    assert_eq!(signals.get(id("!")).unwrap().as_str(), "q");
    assert_eq!(signals.get(id("#")).unwrap().as_str(), "y");
}

#[test]
fn signal_map_test_invalid() {
    let items = parsed_tree();
    assert!(get_signal_map(&items, &vec!["a.b.c".to_string()]).is_err());
    assert!(get_signal_map(&items, &vec!["a.b.z".to_string()]).is_err());
}

#[test]
fn path_errors_scope_and_var() {
    let items = parsed_tree();
    assert_eq!(
        get_signal_map(&items, &vec!["a.b.c".to_string()]).unwrap_err(),
        "invalid VCD path: a.b.c"
    );
    assert_eq!(
        get_signal_map(&items, &vec!["a.c.z".to_string()]).unwrap_err(),
        "invalid VCD path: a.c.z"
    );
}

#[test]
fn wide_signal_rejected() {
    let items = parsed_tree();
    assert_eq!(
        get_signal_map(&items, &vec!["a.b.z".to_string()]).unwrap_err(),
        "signal must be 1-bit wide wire: a.b.z"
    );
}

#[test]
fn malformed_selection_rejected() {
    let items = parsed_tree();
    assert_eq!(
        get_signal_map(&items, &vec!["=a.b.x".to_string()]).unwrap_err(),
        "invalid signal selection: =a.b.x"
    );
}

#[test]
fn empty_selections_collect_eligible_wires() {
    let items = parsed_tree();
    let signals = get_signal_map(&items, &Vec::new()).unwrap();
    assert_eq!(signals.len(), 2);
    assert_eq!(signals.get(id("!")).unwrap().as_str(), "a.b.x");
    assert_eq!(signals.get(id("#")).unwrap().as_str(), "a.b.y");
    assert!(signals.get(id("$")).is_none());
}

#[test]
fn collect_into_existing_map() {
    let items = parsed_tree();
    let mut signals = SignalMap::new();
    collect_all_signals(&items, &mut signals);
    assert_eq!(signals.len(), 2);
    assert_eq!(signals.key_at(0), id("!"));
    assert_eq!(signals.name_at(0).as_str(), "a.b.x");
    assert_eq!(signals.name_at(1).as_str(), "a.b.y");
}

#[test]
fn later_selection_overrides_earlier() {
    let items = parsed_tree();
    let signals = get_signal_map(
        &items,
        &vec!["a.b.x".to_string(), "q=a.b.x".to_string()],
    )
    .unwrap();
    assert_eq!(signals.len(), 1);
    assert_eq!(signals.get(id("!")).unwrap().as_str(), "q");
}

#[test]
fn resolution_is_idempotent() {
    let items = parsed_tree();
    let sels = vec!["q=a.b.x".to_string(), "a.b.y".to_string()];
    let first = get_signal_map(&items, &sels).unwrap();
    let second = get_signal_map(&items, &sels).unwrap();
    assert_eq!(first.len(), second.len());
    for i in 0..first.len() {
        assert_eq!(first.key_at(i), second.key_at(i));
        assert_eq!(first.name_at(i), second.name_at(i));
    }
}

use vcd2v::generator::{generate, render_assign, render_delay, Generator};
use vcd2v::model::{logic_to_char, Event, Logic, ScopeItem, ScopeNode, VarKind, Variable};
use vcd2v::resolver::get_signal_map;
use vcd2v::text::{sanitize_name, u64_to_dec};

const TRACE: &[u8] = b"
    $scope module a $end
    $scope module b $end
    $var wire 1 ! x $end
    $var wire 1 # y $end
    $var wire 8 $ z $end
    $upscope $end
    $upscope $end
    $enddefinitions $end
    #100
    1!
    1#
    #110
    0!
    #120
    0#
    #130
    1!
    1#
";

fn trace_code_key(code: vcd::IdCode) -> u64 {
    let mut result: u64 = 0;
    for b in code.to_string().bytes().rev() {
        result = result * 94 + (b - b'!') as u64 + 1;
    }
    result - 1
}

fn trace_convert_items(items: &[vcd::ScopeItem]) -> Vec<ScopeItem> {
    items
        .iter()
        .map(|item| match item {
            vcd::ScopeItem::Scope(sc) => ScopeItem::Scope(ScopeNode {
                name: sc.identifier.clone(),
                children: trace_convert_items(&sc.children),
            }),
            vcd::ScopeItem::Var(v) => ScopeItem::Var(Variable {
                kind: if v.var_type == vcd::VarType::Wire {
                    VarKind::Wire
                } else {
                    VarKind::Other
                },
                width: v.size as u64,
                code: trace_code_key(v.code),
                name: v.reference.clone(),
            }),
        })
        .collect()
}

fn parse_trace() -> (Vec<ScopeItem>, Vec<Event>) {
    let mut parser = vcd::Parser::new(TRACE);
    let header = parser.parse_header().unwrap();
    let items = trace_convert_items(&header.items);
    let mut events = Vec::new();
    for command in parser {
        let command = command.unwrap();
        events.push(match command {
            vcd::Command::Timestamp(t) => Event::Timestamp(t),
            vcd::Command::ChangeScalar(id, v) => Event::Scalar(
                trace_code_key(id),
                match v {
                    vcd::Value::V0 => Logic::L0,
                    vcd::Value::V1 => Logic::L1,
                    vcd::Value::X => Logic::LX,
                    vcd::Value::Z => Logic::LZ,
                },
            ),
            _ => Event::Other,
        });
    }
    (items, events)
}

fn body_without_tabs(
    events: &[Event],
    signals: &vcd2v::signal_map::SignalMap,
    start: Option<u64>,
    end: Option<u64>,
) -> String {
    let mut g = Generator::new(signals, start, end);
    let mut out = String::new();
    for ev in events {
        if let Some(em) = g.step(ev) {
            if em.delay > 0 {
                out.push_str(&format!("#{};\n", em.delay));
            }
            out.push_str(&format!("{} = {};\n", em.name, logic_to_char(em.value)));
        }
        if g.stopped {
            break;
        }
    }
    out
}

#[test]
fn test_no_time_range() {
    let (items, events) = parse_trace();
    let signals =
        get_signal_map(&items, &vec!["q=a.b.x".to_string(), "a.b.y".to_string()]).unwrap();
    let output = body_without_tabs(&events, &signals, None, None);
    assert_eq!(
        output,
        "#100;\nq = 1;\ny = 1;\n#10;\nq = 0;\n#10;\ny = 0;\n#10;\nq = 1;\ny = 1;\n"
    );
}

#[test]
fn test_with_time_range() {
    let (items, events) = parse_trace();
    let signals =
        get_signal_map(&items, &vec!["q=a.b.x".to_string(), "a.b.y".to_string()]).unwrap();
    let output = body_without_tabs(&events, &signals, Some(105), Some(125));
    assert_eq!(output, "#5;\nq = 0;\n#10;\ny = 0;\n");
}

#[test]
fn full_block_no_time_range() {
    let (items, events) = parse_trace();
    let signals =
        get_signal_map(&items, &vec!["q=a.b.x".to_string(), "a.b.y".to_string()]).unwrap();
    let output = generate(&events, &signals, None, None);
    assert_eq!(
        output,
        "wire q;\nwire y;\n\ninitial begin\n\
         \t#100;\n\tq = 1;\n\ty = 1;\n\
         \t#10;\n\tq = 0;\n\
         \t#10;\n\ty = 0;\n\
         \t#10;\n\tq = 1;\n\ty = 1;\n\
         end\n"
    );
}

#[test]
fn full_block_with_time_range() {
    let (items, events) = parse_trace();
    let signals =
        get_signal_map(&items, &vec!["q=a.b.x".to_string(), "a.b.y".to_string()]).unwrap();
    let output = generate(&events, &signals, Some(105), Some(125));
    assert_eq!(
        output,
        "wire q;\nwire y;\n\ninitial begin\n\t#5;\n\tq = 0;\n\t#10;\n\ty = 0;\nend\n"
    );
}

#[test]
fn full_block_sanitizes_dotted_names() {
    let (items, events) = parse_trace();
    let signals = get_signal_map(&items, &Vec::new()).unwrap();
    let output = generate(&events, &signals, Some(125), None);
    assert_eq!(
        output,
        "wire a_b_x;\nwire a_b_y;\n\ninitial begin\n\t#5;\n\ta_b_x = 1;\n\ta_b_y = 1;\nend\n"
    );
}

#[test]
fn scale_doubles_delays_and_nothing_else() {
    let (items, events) = parse_trace();
    let signals =
        get_signal_map(&items, &vec!["q=a.b.x".to_string(), "a.b.y".to_string()]).unwrap();
    let mut unscaled = Generator::new(&signals, None, None);
    let mut scaled_lines = Vec::new();
    let mut plain_lines = Vec::new();
    for ev in &events {
        if let Some(em) = unscaled.step(ev) {
            if em.delay > 0 {
                plain_lines.push(format!("#{};", em.delay as f32 * 1.0));
                scaled_lines.push(format!("#{};", em.delay as f32 * 2.0));
            }
            let assign = format!("{} = {};", em.name, logic_to_char(em.value));
            plain_lines.push(assign.clone());
            scaled_lines.push(assign);
        }
    }
    assert_eq!(
        plain_lines,
        vec![
            "#100;", "q = 1;", "y = 1;", "#10;", "q = 0;", "#10;", "y = 0;", "#10;", "q = 1;",
            "y = 1;"
        ]
    );
    assert_eq!(
        scaled_lines,
        vec![
            "#200;", "q = 1;", "y = 1;", "#20;", "q = 0;", "#20;", "y = 0;", "#20;", "q = 1;",
            "y = 1;"
        ]
    );
}

#[test]
fn render_pieces() {
    assert_eq!(render_delay(0), "");
    assert_eq!(render_delay(15), "\t#15;\n");
    assert_eq!(render_assign("a.b.x", Logic::L1), "\ta_b_x = 1;\n");
    assert_eq!(render_assign("q", Logic::LX), "\tq = x;\n");
    assert_eq!(render_assign("q", Logic::LZ), "\tq = z;\n");
}

#[test]
fn text_helpers() {
    assert_eq!(u64_to_dec(0), "0");
    assert_eq!(u64_to_dec(105), "105");
    assert_eq!(u64_to_dec(u64::MAX), "18446744073709551615");
    assert_eq!(sanitize_name("top.a.b"), "top_a_b");
    assert_eq!(sanitize_name("plain"), "plain");
}

#[test]
fn unselected_change_past_end_does_not_stop() {
    let (items, _) = parse_trace();
    let signals = get_signal_map(&items, &vec!["q=a.b.x".to_string()]).unwrap();
    // the change at t=130 for the unselected signal must be ignored, not
    // treated as the end of the pass; the later selected change still counts
    let events = vec![
        Event::Timestamp(100),
        Event::Scalar(trace_code_key("!".parse::<vcd::IdCode>().unwrap()), Logic::L1),
        Event::Timestamp(130),
        Event::Scalar(trace_code_key("#".parse::<vcd::IdCode>().unwrap()), Logic::L0),
        Event::Scalar(trace_code_key("!".parse::<vcd::IdCode>().unwrap()), Logic::L0),
    ];
    let output = generate(&events, &signals, None, Some(120));
    assert_eq!(output, "wire q;\n\ninitial begin\n\t#100;\n\tq = 1;\nend\n");
}

#[test]
fn x_and_z_values_pass_through() {
    let (items, _) = parse_trace();
    let signals = get_signal_map(&items, &vec!["q=a.b.x".to_string()]).unwrap();
    let id = trace_code_key("!".parse::<vcd::IdCode>().unwrap());
    let events = vec![
        Event::Timestamp(10),
        Event::Scalar(id, Logic::LX),
        Event::Timestamp(20),
        Event::Scalar(id, Logic::LZ),
    ];
    let output = generate(&events, &signals, None, None);
    assert_eq!(
        output,
        "wire q;\n\ninitial begin\n\t#10;\n\tq = x;\n\t#10;\n\tq = z;\nend\n"
    );
}

#[test]
fn streaming_matches_batch() {
    let (items, events) = parse_trace();
    let signals =
        get_signal_map(&items, &vec!["q=a.b.x".to_string(), "a.b.y".to_string()]).unwrap();
    let batch = generate(&events, &signals, Some(105), Some(125));
    let mut g = Generator::new(&signals, Some(105), Some(125));
    let mut streamed = g.preamble();
    for ev in &events {
        if let Some(em) = g.step(ev) {
            streamed.push_str(&render_delay(em.delay));
            streamed.push_str(&render_assign(em.name.as_str(), em.value));
        }
        if g.stopped {
            break;
        }
    }
    streamed.push_str("end\n");
    assert_eq!(streamed, batch);
}

use babel::eval::wgsl::{emit_function, prelude};
use babel::{compile, Schema};

fn literal(bits: u64) -> String {
    let narrowed = f64::from_bits(bits) as f32;
    let finite = if narrowed.is_infinite() { f32::MAX.copysign(narrowed) } else { narrowed };
    format!("{finite:?}")
}

fn shader(sources: &[&str]) -> String {
    let schema = Schema::new(vec!["x1".to_string(), "x2".to_string(), "x3".to_string()]);
    let mut text = prelude();
    for (index, source) in sources.iter().enumerate() {
        let ast = babel::parse_unfolded(source, &|t: &str| t.parse::<f64>().unwrap().to_bits()).unwrap();
        let compiled = match compile(&ast, &schema) {
            Ok(compiled) => compiled,
            Err(e) => panic!("{source:?}: {e:?}"),
        };
        let literals: Vec<String> = compiled.tape.consts.iter().map(|bits| literal(*bits)).collect();
        text.push_str(&emit_function(&compiled.tape, &format!("c{index}"), 3, &literals));
    }
    text
}

#[test]
fn a_comparison_carries_the_slack_and_a_gather_can_fault() {
    let text = shader(&["var[ceil(x2 * 2)] > 0.5"]);
    assert!(text.contains("babel_slack("), "{text}");
    assert!(text.contains("return BABEL_FAULT;"), "{text}");
}

#[test]
fn a_small_function_reads_as_expected() {
    let text = shader(&["x1 + x2"]);
    assert_eq!(
        text,
        "const BABEL_SLACK: f32 = 0.0001;\nconst BABEL_FAULT: f32 = 3.4028235e38;\n\
         fn babel_slack(a: f32, b: f32) -> f32 {\n    return BABEL_SLACK * (abs(a) + abs(b));\n}\n\
         fn c0(x: ptr<function, array<f32, 3>>) -> f32 {\n    var r: array<f32, 3>;\n\
         \x20   r[0] = (*x)[0];\n    r[1] = (*x)[1];\n    r[2] = r[0] + r[1];\n    return r[2];\n}\n"
    );
}

#[test]
fn a_root_is_guarded_by_its_domain() {
    let text = shader(&["sqrt(x1) < 2"]);
    assert!(text.contains("    if r[1] < 0.0 {\n        return BABEL_FAULT;\n    }\n"), "{text}");
    assert!(text.contains("    r[0] = 2.0;\n"), "{text}");
}

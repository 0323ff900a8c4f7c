use cidr_calc::eval::{eval, eval_stmt};
use cidr_calc::parser::parse_single;
use cidr_calc::{parse, EvalError, Scope, Stmt, Value};

fn render(v: &Value) -> Vec<String> {
    cidr_calc::eval::format(v)
}

fn eval_single(stmt: &Stmt) -> Result<Value, EvalError> {
    eval_stmt(stmt, Scope::default()).map(|e| e.0)
}

#[test]
fn test() {
    println!("{:?}", eval_single(&parse_single("0.0.0.0/0").unwrap()));
    println!("{:?}", eval_single(&parse_single("::1/128").unwrap()));
    println!("{:?}", eval_single(&parse_single("::1/128 - ::/0").unwrap()));
    println!("{:?}", eval_single(&parse_single("0.0.0.0/1").unwrap()));
    println!(
        "{:?}",
        eval_single(&parse_single("0.0.0.0/1 + 128.0.0.0/1").unwrap())
    );
    println!(
        "{:?}",
        eval_single(&parse_single("0.0.0.0/0 - 101.6.6.6/32").unwrap())
    );
}

fn run_line(line: &str) -> Vec<String> {
    let stmt = parse_single(line).unwrap();
    let (v, _s) = eval_stmt(&stmt, Scope::default()).unwrap();
    render(&v)
}

#[test]
fn v4_universe_roundtrip() {
    assert_eq!(run_line("0.0.0.0/0"), vec!["0.0.0.0/0".to_string()]);
}

#[test]
fn v6_single_address_roundtrip() {
    assert_eq!(run_line("::1/128"), vec!["::1/128".to_string()]);
}

#[test]
fn subtract_universe_is_empty() {
    assert_eq!(run_line("::1/128 - ::/0"), Vec::<String>::new());
    assert_eq!(run_line("1.2.3.0/24 - 0.0.0.0/0"), Vec::<String>::new());
}

#[test]
fn sibling_halves_collapse_to_universe() {
    assert_eq!(
        run_line("0.0.0.0/1 + 128.0.0.0/1"),
        vec!["0.0.0.0/0".to_string()]
    );
    assert_eq!(run_line("::/1 + 8000::/1"), vec!["::/0".to_string()]);
}

#[test]
fn v4_universe_minus_single_address() {
    let lines = run_line("0.0.0.0/0 - 101.6.6.6/32");
    assert_eq!(lines.len(), 32);
    assert_eq!(lines[0], "0.0.0.0/2");
    assert_eq!(lines[31], "128.0.0.0/1");
    // The blocks come out as the prefixes reached by flipping each bit
    // of the removed address in turn, in increasing order.
    let addr: u32 = 1694893574;
    let mut expected: Vec<String> = Vec::new();
    for bit in 0..32u32 {
        let len = bit + 1;
        let flipped = addr ^ (1u32 << (32 - len));
        let masked = if len == 32 {
            flipped
        } else {
            flipped & !((1u32 << (32 - len)) - 1)
        };
        let octets = masked.to_be_bytes();
        expected.push(format!(
            "{}.{}.{}.{}/{}",
            octets[0], octets[1], octets[2], octets[3], len
        ));
    }
    expected.sort_by(|a, b| {
        let pa: Vec<&str> = a.split('/').collect();
        let pb: Vec<&str> = b.split('/').collect();
        let va: u32 = pa[0]
            .split('.')
            .fold(0u32, |acc, o| acc << 8 | o.parse::<u32>().unwrap());
        let vb: u32 = pb[0]
            .split('.')
            .fold(0u32, |acc, o| acc << 8 | o.parse::<u32>().unwrap());
        va.cmp(&vb)
    });
    assert_eq!(lines, expected);
}

#[test]
fn rebinding_and_difference_union() {
    let script = "let a = 10.0.0.0/8\nlet b = 10.1.0.0/16\na - b + b";
    let stmts = parse(script).unwrap();
    let values = eval(&stmts).unwrap();
    assert_eq!(values.len(), 3);
    assert!(matches!(values[0], Value::Unit));
    assert!(matches!(values[1], Value::Unit));
    assert_eq!(render(&values[2]), vec!["10.0.0.0/8".to_string()]);
}

#[test]
fn single_v4_address_roundtrip() {
    assert_eq!(run_line("1.2.3.4/32"), vec!["1.2.3.4/32".to_string()]);
}

#[test]
fn masked_bits_are_cleared() {
    assert_eq!(run_line("1.2.3.4/16"), vec!["1.2.0.0/16".to_string()]);
    assert_eq!(
        run_line("2001:da8::666/24"),
        vec!["2001:d00::/24".to_string()]
    );
}

#[test]
fn unbound_identifier_error() {
    let stmt = parse_single("nope").unwrap();
    let err = match eval_stmt(&stmt, Scope::default()) {
        Err(e) => e,
        Ok(_) => panic!("expected an error"),
    };
    assert_eq!(err, EvalError::UnboundIdentifier("nope".to_string()));
}

#[test]
fn family_mismatch_errors() {
    let stmt = parse_single("1.2.3.4/8 + ::/0").unwrap();
    let err = match eval_stmt(&stmt, Scope::default()) {
        Err(e) => e,
        Ok(_) => panic!("expected an error"),
    };
    assert_eq!(err, EvalError::FamilyMismatch);
    let stmt = parse_single("::/0 - 1.2.3.4/8").unwrap();
    let err = match eval_stmt(&stmt, Scope::default()) {
        Err(e) => e,
        Ok(_) => panic!("expected an error"),
    };
    assert_eq!(err, EvalError::FamilyMismatch);
}

#[test]
fn scope_keys_after_binding() {
    let stmt = parse_single("let alpha = 1.0.0.0/8").unwrap();
    let (v, s) = eval_stmt(&stmt, Scope::default()).unwrap();
    assert!(matches!(v, Value::Unit));
    let keys = s.keys();
    assert_eq!(keys, vec!["alpha".to_string()]);
    // The binding is really there: the scope that came back resolves it.
    let stmt2 = parse_single("alpha").unwrap();
    let (v2, _) = eval_stmt(&stmt2, s).unwrap();
    assert_eq!(render(&v2), vec!["1.0.0.0/8".to_string()]);
}

#[test]
fn scope_is_persistent() {
    // A later binding must not disturb the earlier scope value.
    let stmt = parse_single("let x = 1.0.0.0/8").unwrap();
    let (_, s1) = eval_stmt(&stmt, Scope::default()).unwrap();
    let stmt2 = parse_single("let x = 2.0.0.0/8").unwrap();
    let (_, s2) = eval_stmt(&stmt2, s1.clone()).unwrap();
    let lookup = parse_single("x").unwrap();
    let (v1, _) = eval_stmt(&lookup, s1).unwrap();
    let (v2, _) = eval_stmt(&lookup, s2).unwrap();
    assert_eq!(render(&v1), vec!["1.0.0.0/8".to_string()]);
    assert_eq!(render(&v2), vec!["2.0.0.0/8".to_string()]);
}

#[test]
fn union_is_idempotent_and_commutative_by_text() {
    let a_or_a = run_line("10.0.0.0/8 + 10.0.0.0/8");
    assert_eq!(a_or_a, vec!["10.0.0.0/8".to_string()]);
    let ab = run_line("10.0.0.0/8 + 192.168.0.0/16");
    let ba = run_line("192.168.0.0/16 + 10.0.0.0/8");
    assert_eq!(ab, ba);
}

#[test]
fn difference_removes_exactly_the_hole() {
    let lines = run_line("10.0.0.0/8 - 10.128.0.0/9");
    assert_eq!(lines, vec!["10.0.0.0/9".to_string()]);
    let lines = run_line("10.0.0.0/8 - 10.64.0.0/10");
    assert_eq!(
        lines,
        vec!["10.0.0.0/10".to_string(), "10.128.0.0/9".to_string()]
    );
}

#[test]
fn enumeration_order_is_increasing() {
    let lines = run_line("0.0.0.0/0 - 101.6.6.6/32");
    let values: Vec<(u32, u32)> = lines
        .iter()
        .map(|l| {
            let parts: Vec<&str> = l.split('/').collect();
            let v = parts[0]
                .split('.')
                .fold(0u32, |acc, o| acc << 8 | o.parse::<u32>().unwrap());
            (v, parts[1].parse::<u32>().unwrap())
        })
        .collect();
    for w in values.windows(2) {
        assert!(w[0].0 < w[1].0 || (w[0].0 == w[1].0 && w[0].1 < w[1].1));
    }
}

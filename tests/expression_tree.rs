use expression_tree::{BinaryOperation, Node, Token, UnaryOperation};

fn num(v: f64) -> Node {
    Node::value(v.to_bits())
}

fn leaf_texts(n: &Node) -> Vec<String> {
    n.leaves().iter().map(|b| f64::from_bits(*b).to_string()).collect()
}

fn show(n: &Node) -> String {
    n.render(&leaf_texts(n))
}

fn apply_binary(op: BinaryOperation, l: f64, r: f64) -> f64 {
    match op {
        BinaryOperation::Addition => l + r,
        BinaryOperation::Subtraction => l - r,
        BinaryOperation::Multiplication => l * r,
        BinaryOperation::Division => l / r,
        BinaryOperation::Power => l.powf(r),
    }
}

fn apply_unary(op: UnaryOperation, v: f64) -> f64 {
    match op {
        UnaryOperation::Minus => -v,
        UnaryOperation::Exp => v.exp(),
        UnaryOperation::Log => v.ln(),
        UnaryOperation::SquareRoot => v.sqrt(),
    }
}

fn eval_tree(n: &Node) -> f64 {
    match n {
        Node::Binary { operation, left, right } => {
            apply_binary(*operation, eval_tree(left), eval_tree(right))
        }
        Node::Unary { operation, operand } => apply_unary(*operation, eval_tree(operand)),
        Node::Value(b) => f64::from_bits(*b),
    }
}

fn eval_postfix(tokens: &[Token]) -> f64 {
    let mut stack: Vec<f64> = Vec::new();
    for t in tokens {
        match t {
            Token::Operand(b) => stack.push(f64::from_bits(*b)),
            Token::Unary(op) => {
                let v = stack.pop().unwrap();
                stack.push(apply_unary(*op, v));
            }
            Token::Binary(op) => {
                let r = stack.pop().unwrap();
                let l = stack.pop().unwrap();
                stack.push(apply_binary(*op, l, r));
            }
        }
    }
    assert_eq!(stack.len(), 1);
    stack[0]
}

fn scenario_a() -> Node {
    Node::binary(
        BinaryOperation::Multiplication,
        num(5.0),
        Node::unary(UnaryOperation::Minus, num(3.0)),
    )
}

fn scenario_b() -> Node {
    let sum = Node::binary(
        BinaryOperation::Addition,
        scenario_a(),
        Node::binary(BinaryOperation::Multiplication, num(7.0), num(2.0)),
    );
    Node::unary(
        UnaryOperation::Log,
        Node::binary(BinaryOperation::Power, num(2.0), sum),
    )
}

fn scenario_c() -> Node {
    Node::unary(
        UnaryOperation::SquareRoot,
        Node::unary(UnaryOperation::Minus, num(10.0)),
    )
}

#[test]
fn scenario_a_render() {
    assert_eq!(show(&scenario_a()), "(5 * (- 3))");
}

#[test]
fn scenario_a_postfix() {
    assert_eq!(
        scenario_a().to_postfix(),
        vec![
            Token::Operand(5.0f64.to_bits()),
            Token::Operand(3.0f64.to_bits()),
            Token::Unary(UnaryOperation::Minus),
            Token::Binary(BinaryOperation::Multiplication),
        ]
    );
}

#[test]
fn scenario_a_evaluate() {
    let t = scenario_a();
    assert_eq!(eval_tree(&t), -15.0);
    assert_eq!(eval_postfix(&t.to_postfix()), -15.0);
}

#[test]
fn scenario_b_evaluate() {
    let t = scenario_b();
    let v = eval_tree(&t);
    assert!((v - (-0.6931471805599453)).abs() < 1e-12);
    assert_eq!(v.to_bits(), 0.5f64.ln().to_bits());
    assert_eq!(eval_postfix(&t.to_postfix()).to_bits(), v.to_bits());
}

#[test]
fn scenario_b_render() {
    assert_eq!(
        show(&scenario_b()),
        "(ln (2 ^ ((5 * (- 3)) + (7 * 2))))"
    );
}

#[test]
fn scenario_b_postfix() {
    let b = |v: f64| Token::Operand(v.to_bits());
    assert_eq!(
        scenario_b().to_postfix(),
        vec![
            b(2.0),
            b(5.0),
            b(3.0),
            Token::Unary(UnaryOperation::Minus),
            Token::Binary(BinaryOperation::Multiplication),
            b(7.0),
            b(2.0),
            Token::Binary(BinaryOperation::Multiplication),
            Token::Binary(BinaryOperation::Addition),
            Token::Binary(BinaryOperation::Power),
            Token::Unary(UnaryOperation::Log),
        ]
    );
}

#[test]
fn scenario_c_is_nan() {
    let t = scenario_c();
    assert!(eval_tree(&t).is_nan());
    assert!(eval_postfix(&t.to_postfix()).is_nan());
    assert_eq!(show(&t), "(\u{221a} (- 10))");
}

#[test]
fn leaf_postfix_is_single_operand() {
    for v in [0.0f64, -0.0, 1.5, -2.25, f64::INFINITY, f64::NAN, f64::MAX] {
        let n = num(v);
        assert_eq!(n.to_postfix(), vec![Token::Operand(v.to_bits())]);
        assert_eq!(eval_tree(&n).to_bits(), v.to_bits());
        assert_eq!(n.leaves(), vec![v.to_bits()]);
    }
}

#[test]
fn postfix_is_deterministic() {
    let t = scenario_b();
    assert_eq!(t.to_postfix(), t.to_postfix());
    assert_eq!(eval_tree(&t).to_bits(), eval_tree(&t).to_bits());
}

#[test]
fn postfix_left_before_right_operator_last() {
    let left = Node::binary(BinaryOperation::Subtraction, num(1.0), num(2.0));
    let right = Node::unary(UnaryOperation::Exp, num(3.0));
    let lp = left.to_postfix();
    let rp = right.to_postfix();
    let t = Node::binary(BinaryOperation::Division, left, right);
    let p = t.to_postfix();
    assert_eq!(p.len(), lp.len() + rp.len() + 1);
    assert_eq!(&p[..lp.len()], &lp[..]);
    assert_eq!(&p[lp.len()..lp.len() + rp.len()], &rp[..]);
    assert_eq!(p[p.len() - 1], Token::Binary(BinaryOperation::Division));
}

#[test]
fn postfix_run_agrees_with_tree_on_all_operators() {
    let t = Node::binary(
        BinaryOperation::Subtraction,
        Node::binary(
            BinaryOperation::Division,
            Node::unary(UnaryOperation::Exp, num(1.0)),
            Node::unary(UnaryOperation::SquareRoot, num(16.0)),
        ),
        Node::binary(
            BinaryOperation::Power,
            Node::unary(UnaryOperation::Log, num(8.0)),
            num(0.5),
        ),
    );
    assert_eq!(eval_postfix(&t.to_postfix()).to_bits(), eval_tree(&t).to_bits());
    let z = Node::binary(BinaryOperation::Division, num(1.0), num(0.0));
    assert_eq!(eval_postfix(&z.to_postfix()), f64::INFINITY);
    assert_eq!(eval_tree(&z), f64::INFINITY);
}

#[test]
fn render_is_balanced_with_one_symbol_per_node() {
    let s = show(&scenario_b());
    let mut depth: i64 = 0;
    for c in s.chars() {
        if c == '(' {
            depth += 1;
        } else if c == ')' {
            depth -= 1;
        }
        assert!(depth >= 0);
    }
    assert_eq!(depth, 0);
    assert_eq!(s.matches('(').count(), 6);
    assert_eq!(s.matches("ln").count(), 1);
    assert_eq!(s.matches('^').count(), 1);
    assert_eq!(s.matches('+').count(), 1);
    assert_eq!(s.matches('*').count(), 2);
    assert_eq!(s.matches('-').count(), 1);
}

#[test]
fn render_uses_leaf_texts_in_order() {
    let t = Node::binary(
        BinaryOperation::Subtraction,
        Node::unary(UnaryOperation::Exp, num(1.0)),
        Node::binary(BinaryOperation::Division, num(2.0), num(3.0)),
    );
    let texts = vec!["a".to_string(), "b".to_string(), "c".to_string()];
    assert_eq!(t.render(&texts), "((e^ a) - (b / c))");
    assert_eq!(show(&t), "((e^ 1) - (2 / 3))");
}

#[test]
fn render_of_leaf_is_its_text() {
    assert_eq!(show(&num(-2.5)), "-2.5");
    assert_eq!(show(&num(f64::NAN)), "NaN");
}

#[test]
fn leaves_in_left_to_right_order() {
    let bits: Vec<u64> = [2.0f64, 5.0, 3.0, 7.0, 2.0].iter().map(|v| v.to_bits()).collect();
    assert_eq!(scenario_b().leaves(), bits);
}

#[test]
fn binary_symbols() {
    assert_eq!(BinaryOperation::Addition.symbol(), "+");
    assert_eq!(BinaryOperation::Subtraction.symbol(), "-");
    assert_eq!(BinaryOperation::Multiplication.symbol(), "*");
    assert_eq!(BinaryOperation::Division.symbol(), "/");
    assert_eq!(BinaryOperation::Power.to_string(), "^");
}

#[test]
fn unary_symbols() {
    assert_eq!(UnaryOperation::Minus.symbol(), "-");
    assert_eq!(UnaryOperation::Exp.symbol(), "e^");
    assert_eq!(UnaryOperation::Log.symbol(), "ln");
    assert_eq!(UnaryOperation::SquareRoot.to_string(), "\u{221a}");
}

#[test]
fn token_operator_symbols() {
    assert_eq!(Token::Binary(BinaryOperation::Power).operator_symbol(), Some("^"));
    assert_eq!(Token::Unary(UnaryOperation::Log).operator_symbol(), Some("ln"));
    assert_eq!(Token::Operand(1.0f64.to_bits()).operator_symbol(), None);
}

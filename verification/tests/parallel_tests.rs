use spec_css::lexer::tokenize;
use spec_css::parallel::spec_tokenize;
use spec_css::tokens::Token;

#[test]
fn parallel_equals_sequential() {
    let css = "a{color:red}\n.b c{margin:0 1.5em}/*note*/#id url( 'x' )";
    let sequential = tokenize(css.as_bytes());
    let mut n: usize = 1;
    while n <= 6 {
        let (stats, nodes) = spec_tokenize(css.as_bytes(), n);
        assert!(nodes == sequential);
        assert!(stats.iters == n);
        assert!(stats.mispredictions.len() == n);
        assert!(!stats.mispredictions[0]);
        n += 1;
    }
}

#[test]
fn parallel_recovers_from_misprediction() {
    // the comment is longer than the lookback and spans the window cut,
    // so the second window's predicted boundary is wrong and the window
    // is recomputed; the result must still equal the sequential run
    let css = "aa{/* 0123456789 0123456789 0123456789 */}bb{}";
    let sequential = tokenize(css.as_bytes());
    let (stats, nodes) = spec_tokenize(css.as_bytes(), 2);
    assert!(nodes == sequential);
    assert!(stats.iters == 2);
    assert!(stats.mispredictions.iter().any(|&m| m));
}

#[test]
fn parallel_on_tiny_inputs() {
    let (stats, nodes) = spec_tokenize(b"", 3);
    assert!(nodes.is_empty());
    assert!(stats.iters == 3);
    assert!(stats.mispredictions == vec![false, false, false]);

    let (stats1, nodes1) = spec_tokenize(b"a", 4);
    assert!(stats1.iters == 4);
    assert!(nodes1.len() == 1);
    assert!(matches!(nodes1[0].0, Token::Ident(_)));
}

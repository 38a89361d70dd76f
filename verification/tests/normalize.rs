use apca_stream::symbols::MarketData;
use apca_stream::symbols::Normalized;
use apca_stream::symbols::Symbol;
use apca_stream::symbols::is_normalized;
use apca_stream::symbols::normalize;
use apca_stream::symbols::symbol_eq;
use apca_stream::symbols::symbol_lt;

fn sym(s: &str) -> Symbol {
    Symbol::Symbol(s.to_string())
}

/// Check that we can normalize `Symbol` lists.
#[test]
fn normalize_subscriptions() {
    let subscriptions = vec![Symbol::All];
    assert!(is_normalized(&subscriptions));

    let subscriptions = vec![Symbol::Symbol("MSFT".into()), Symbol::Symbol("SPY".into())];
    assert!(is_normalized(&subscriptions));

    let mut subscriptions = vec![Symbol::Symbol("SPY".into()), Symbol::Symbol("MSFT".into())];
    assert!(!is_normalized(&subscriptions));
    subscriptions = normalize(subscriptions);
    assert!(is_normalized(&subscriptions));

    let expected = vec![Symbol::Symbol("MSFT".into()), Symbol::Symbol("SPY".into())];
    assert_eq!(subscriptions, expected);

    let mut subscriptions = vec![
        Symbol::Symbol("SPY".into()),
        Symbol::All,
        Symbol::Symbol("MSFT".into()),
    ];
    assert!(!is_normalized(&subscriptions));
    subscriptions = normalize(subscriptions);
    assert!(is_normalized(&subscriptions));

    let expected = vec![Symbol::All];
    assert_eq!(subscriptions, expected);
}

/// Normalizing twice gives what normalizing once gives, and a normalized
/// list passes through unchanged.
#[test]
fn normalize_is_idempotent() {
    let once = normalize(vec![sym("VOO"), sym("AAPL"), sym("VOO")]);
    let twice = normalize(once.clone());
    assert_eq!(once, twice);
    assert_eq!(once, vec![sym("AAPL"), sym("VOO")]);

    let already = vec![sym("A"), sym("B"), sym("C")];
    assert_eq!(normalize(already.clone()), already);
}

/// A list containing the wildcard collapses to the single wildcard.
#[test]
fn normalize_absorbs_wildcard() {
    let out = normalize(vec![sym("AAPL"), Symbol::All, sym("SPY"), Symbol::All]);
    assert_eq!(out, vec![Symbol::All]);
    let out = normalize(vec![Symbol::All]);
    assert_eq!(out, vec![Symbol::All]);
}

/// A normalized wildcard-free list is strictly increasing: sorted, and with
/// every duplicate removed.
#[test]
fn normalize_sorts_and_dedups() {
    let out = normalize(vec![sym("MSFT"), sym("AAPL"), sym("MSFT"), sym("AA")]);
    assert_eq!(out, vec![sym("AA"), sym("AAPL"), sym("MSFT")]);
    for w in out.windows(2) {
        assert!(symbol_lt(&w[0], &w[1]));
        assert!(!symbol_eq(&w[0], &w[1]));
    }
    // Any identifier comes before the wildcard, identifiers order lexically.
    assert!(symbol_lt(&sym("ZZZZ"), &Symbol::All));
    assert!(symbol_lt(&sym("AA"), &sym("AAPL")));
    assert!(!symbol_lt(&sym("AAPL"), &sym("AA")));
}

/// The empty list is normalized, and an empty or duplicated-wildcard list
/// canonicalizes as the invariant asks.
#[test]
fn normalize_edge_cases() {
    let empty: Vec<Symbol> = Vec::new();
    assert!(is_normalized(&empty));
    assert_eq!(normalize(empty), Vec::new());

    // Two wildcards are not normalized: the wildcard may only stand alone.
    let two = vec![Symbol::All, Symbol::All];
    assert!(!is_normalized(&two));
    assert_eq!(normalize(two), vec![Symbol::All]);

    // Duplicates alone are not normalized either.
    let dup = vec![sym("MSFT"), sym("MSFT")];
    assert!(!is_normalized(&dup));
    assert_eq!(normalize(dup), vec![sym("MSFT")]);
}

/// Reading symbols from text: `*` is the wildcard.
#[test]
fn symbol_from_text() {
    assert_eq!(Symbol::from("*".to_string()), Symbol::All);
    assert_eq!(Symbol::from("SPY".to_string()), Symbol::Symbol("SPY".into()));
}

/// Setting a category normalizes its list.
#[test]
fn set_bars_normalizes() {
    let mut data = MarketData::default();
    assert_eq!(data.bars.symbols().len(), 0);
    data.set_bars(vec![sym("VOO"), sym("AAPL")]);
    assert_eq!(data.bars.symbols(), &vec![sym("AAPL"), sym("VOO")]);
}

/// Merging and removing keep the normalized form.
#[test]
fn merge_and_remove() {
    let base = Normalized::new(vec![sym("AAPL"), sym("VOO")]);
    let extra = Normalized::new(vec![sym("MSFT"), sym("AAPL")]);
    let merged = base.merge(&extra);
    assert_eq!(merged.symbols(), &vec![sym("AAPL"), sym("MSFT"), sym("VOO")]);

    let gone = Normalized::new(vec![sym("AAPL")]);
    let kept = merged.remove(&gone);
    assert_eq!(kept.symbols(), &vec![sym("MSFT"), sym("VOO")]);

    let wild = base.merge(&Normalized::new(vec![Symbol::All]));
    assert_eq!(wild.symbols(), &vec![Symbol::All]);
}

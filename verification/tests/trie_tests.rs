use naive_auto_complete::Context;
use naive_auto_complete::CreateError;
use naive_auto_complete::PoolContexts;
use naive_auto_complete::Token;
use naive_auto_complete::tokens::create_tokens;

fn chain(words: &[&str]) -> Vec<String> {
    words.iter().map(|w| w.to_string()).collect()
}

fn child<'a>(t: &'a Token, v: &str) -> &'a Token {
    t.children.iter().find(|c| c.value == v).unwrap()
}

#[test]
fn create_contexts() {
    let text = "rtx and rtx asd rtx and qwe zxc rtx and qwe";
    let tokens = create_tokens(text);
    let pool_ctx = PoolContexts::create_pool(&tokens).unwrap();

    let rtx_ctx = pool_ctx.get(&"rtx".to_string()).unwrap();
    let mut query = chain(&["rtx"]);
    for _ in 0..50 {
        let next = rtx_ctx.find_possible_next(&query);
        query.push(next);
    }
}

#[test]
fn test_find_possible() {
    let tokens = chain(&["rtx", "and", "asd", "qwe", "zxc"]);
    let tokens_to_add = chain(&["rtx", "and", "hgr", "qwe", "zxc", "asd"]);
    let more_added = chain(&["rtx", "jty", "hgr", "qwe", "zxc", "asd"]);
    let more = chain(&["rtx", "and", "hgr", "qwe", "zxc", "asd"]);
    let mut ctx = Context::create(&tokens).unwrap();
    ctx.add(&tokens_to_add);
    ctx.add(&more_added);
    ctx.add(&more);

    assert_eq!(ctx.find_possible_next(&chain(&["rtx", "and"])), "hgr".to_string());
}

#[test]
fn create_sets_root_and_depth() {
    let ctx = Context::create(&chain(&["a", "b", "c", "d"])).unwrap();
    assert_eq!(ctx.root.value, "a".to_string());
    assert_eq!(ctx.root.occurrences, 0);
    assert_eq!(ctx.depth, 3);

    let one = Context::create(&chain(&["solo"])).unwrap();
    assert_eq!(one.root.value, "solo".to_string());
    assert_eq!(one.depth, 0);
    assert!(one.root.children.is_empty());
}

#[test]
fn create_empty_is_refused() {
    let r = Context::create(&Vec::new());
    assert!(matches!(r, Err(CreateError::EmptyInput)));
}

#[test]
fn repeated_chain_counts_each_insertion() {
    let toks = chain(&["x", "y", "z"]);
    let mut ctx = Context::create(&toks).unwrap();
    ctx.add(&toks);
    ctx.add(&toks);

    let y = child(&ctx.root, "y");
    assert_eq!(y.occurrences, 3);
    let z = child(y, "z");
    assert_eq!(z.occurrences, 3);

    // An unrelated branch is untouched.
    ctx.add(&chain(&["x", "w"]));
    let w = child(&ctx.root, "w");
    assert_eq!(w.occurrences, 1);
    assert_eq!(child(&ctx.root, "y").occurrences, 3);
    assert_eq!(ctx.depth, 2);
}

#[test]
fn add_keeps_longest_chain_as_depth() {
    let mut ctx = Context::create(&chain(&["k", "a"])).unwrap();
    assert_eq!(ctx.depth, 1);
    ctx.add(&chain(&["k", "a", "b", "c"]));
    assert_eq!(ctx.depth, 3);
    ctx.add(&chain(&["k", "a"]));
    assert_eq!(ctx.depth, 3);
}

#[test]
fn missing_path_gives_empty_sentinel() {
    let ctx = Context::create(&chain(&["a", "b", "c"])).unwrap();
    assert_eq!(ctx.find_possible_next(&chain(&["a", "nope"])), String::new());
    assert_eq!(ctx.find_possible_next(&chain(&["a", "b", "c", "d"])), String::new());
}

#[test]
fn leaf_without_children_gives_empty_sentinel() {
    let ctx = Context::new("lone".to_string());
    assert_eq!(ctx.find_possible_next(&chain(&["lone"])), String::new());

    let deep = Context::create(&chain(&["a", "b"])).unwrap();
    assert_eq!(deep.find_possible_next(&chain(&["a", "b"])), String::new());
}

#[test]
fn strictly_greatest_count_wins() {
    let mut ctx = Context::create(&chain(&["r", "one"])).unwrap();
    ctx.add(&chain(&["r", "two"]));
    ctx.add(&chain(&["r", "two"]));
    ctx.add(&chain(&["r", "three"]));
    assert_eq!(ctx.find_possible_next(&chain(&["r"])), "two".to_string());
}

#[test]
fn tie_resolves_to_earliest_inserted() {
    let mut ctx = Context::create(&chain(&["r", "late"])).unwrap();
    ctx.add(&chain(&["r", "early"]));
    // Both carry one occurrence; "late" was inserted first.
    assert_eq!(ctx.find_possible_next(&chain(&["r"])), "late".to_string());
}

#[test]
fn pool_counts_overlapping_suffixes() {
    let toks = chain(&["a", "b", "c", "a", "b", "d"]);
    let pool = PoolContexts::create_pool(&toks).unwrap();

    let a_ctx = pool.get(&"a".to_string()).unwrap();
    let b = child(&a_ctx.root, "b");
    assert_eq!(b.occurrences, 2);
    assert_eq!(child(b, "c").occurrences, 1);
    assert_eq!(child(b, "d").occurrences, 1);

    // Equal counts: the tie falls to the earliest inserted child, "c".
    assert_eq!(a_ctx.find_possible_next(&chain(&["a", "b"])), "c".to_string());

    // Each context's depth comes from its first, longest suffix.
    assert_eq!(a_ctx.depth, 5);
    assert_eq!(pool.get(&"b".to_string()).unwrap().depth, 4);
    assert_eq!(pool.get(&"d".to_string()).unwrap().depth, 0);
}

#[test]
fn pool_has_one_context_per_distinct_token() {
    let toks = chain(&["a", "b", "a", "c"]);
    let pool = PoolContexts::create_pool(&toks).unwrap();
    assert_eq!(pool.contexts.len(), 3);
    for key in ["a", "b", "c"] {
        let ctx = pool.get(&key.to_string()).unwrap();
        assert_eq!(ctx.root.value, key.to_string());
        assert_eq!(ctx.root.occurrences, 0);
    }
    assert!(pool.get(&"d".to_string()).is_none());
}

#[test]
fn pool_of_empty_sequence_is_refused() {
    let r = PoolContexts::create_pool(&Vec::new());
    assert!(matches!(r, Err(CreateError::EmptyInput)));
}

#[test]
fn empty_pool_has_no_context() {
    let pool = PoolContexts::new();
    assert!(pool.contexts.is_empty());
    assert!(pool.get(&"and".to_string()).is_none());
}

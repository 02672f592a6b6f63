use ponent::keyset::Key;
use ponent::query::cache::{DefIdCache, DefaultCache, QueryCacheType, SingleCache};
use ponent::query::dep_graph::{DepGraph, DepNodeIndex, TaskDeps, TaskStack};
use ponent::query::job::{JobCounter, Poisoned, QueryJob, QueryJobId, QueryLatch};
use ponent::query::provider::{query_get, Query, QueryHandle, QueryProvider};
use ponent::query::system::{QuerySystem, Step};
use ponent::query::vtable::{
    CycleKind, QueryCycleError, QueryDescriptor, QueryVTable, MAX_QUERY_DEPTH,
};
use ponent::types::DefId;
use std::cell::Cell;

#[derive(Debug, Clone, PartialEq, Eq, Hash)]
struct TestKey(usize);

impl Key for TestKey {
    fn twin(&self) -> Self {
        self.clone()
    }

    fn same(&self, other: &Self) -> bool {
        self == other
    }
}

#[derive(Debug, Clone, PartialEq, Eq)]
struct TestValue(String);

fn value(text: &str) -> TestValue {
    TestValue(text.to_string())
}

fn text_fingerprint(text: &str) -> u64 {
    text.bytes().fold(7, |h: u64, b| h.wrapping_mul(31).wrapping_add(b as u64))
}

// ---------------------------------------------------------------------------
// Caches
// ---------------------------------------------------------------------------

#[test]
fn test_default_cache() {
    let mut cache = DefaultCache::new();
    let key = TestKey(1);
    let v = value("hello");
    assert!(cache.lookup(&key).is_none());
    cache.insert(key.clone(), v.clone());
    assert_eq!(cache.lookup(&key), Some(v));
}

#[test]
fn test_default_cache_lru() {
    let mut cache = DefaultCache::with_capacity(2);
    cache.insert(TestKey(1), value("a"));
    cache.insert(TestKey(2), value("b"));
    assert_eq!(cache.lookup(&TestKey(1)), Some(value("a")));
    cache.insert(TestKey(3), value("c"));
    assert!(cache.lookup(&TestKey(1)).is_some(), "key 1 was accessed, should survive");
    assert!(cache.lookup(&TestKey(2)).is_none(), "key 2 was never re-accessed, should be evicted");
    assert!(cache.lookup(&TestKey(3)).is_some(), "key 3 was just inserted");
}

#[test]
fn test_single_cache() {
    let mut cache = SingleCache::new();
    assert!(cache.lookup(&()).is_none());
    cache.insert((), value("singleton"));
    assert_eq!(cache.lookup(&()), Some(value("singleton")));
    assert_eq!(cache.len(), 1);
}

#[test]
fn test_def_id_cache() {
    let mut cache = DefIdCache::new();
    let d0 = DefId(0);
    let d1 = DefId(1);
    assert!(cache.lookup(&d0).is_none());
    cache.insert(d0, value("zero"));
    cache.insert(d1, value("one"));
    assert_eq!(cache.lookup(&d0), Some(value("zero")));
    assert_eq!(cache.lookup(&d1), Some(value("one")));
}

#[test]
fn a_cache_counts_its_use() {
    let mut cache = DefaultCache::with_capacity(2);
    cache.insert(1u64, 10u64);
    cache.insert(2, 20);
    cache.insert(3, 30);
    assert_eq!(cache.lookup(&3), Some(30));
    assert_eq!(cache.lookup(&1), None);
    let stats = cache.stats();
    assert_eq!(stats.hits, 1);
    assert_eq!(stats.misses, 1);
    assert_eq!(stats.evictions, 1);
    assert_eq!(stats.entries, 2);
}

#[test]
fn a_cache_lists_the_last_used_first() {
    let mut cache = DefaultCache::with_capacity(3);
    cache.insert(1u64, 10u64);
    cache.insert(2, 20);
    cache.insert(3, 30);
    cache.lookup(&1);
    let keys: Vec<u64> = cache.listing().iter().map(|e| e.0).collect();
    assert_eq!(keys, vec![1, 3, 2]);
}

#[test]
fn a_cache_forgets() {
    let mut cache = DefaultCache::with_capacity(3);
    cache.insert(1u64, 10u64);
    cache.insert(2, 20);
    cache.remove(&1);
    assert_eq!(cache.lookup(&1), None);
    assert_eq!(cache.lookup(&2), Some(20));
    assert_eq!(cache.len(), 1);
    cache.insert(4, 40);
    assert_eq!(cache.len(), 2);
    cache.clear();
    assert_eq!(cache.len(), 0);
    assert_eq!(cache.lookup(&2), None);
}

#[test]
fn a_stored_value_is_replaced() {
    let mut cache = DefaultCache::with_capacity(3);
    cache.insert(1u64, 10u64);
    cache.insert(1, 11);
    assert_eq!(cache.len(), 1);
    assert_eq!(cache.lookup(&1), Some(11));
}

#[test]
fn a_cache_by_definition_forgets() {
    let mut cache = DefIdCache::new();
    cache.insert(DefId(3), 30u64);
    cache.insert(DefId(5), 50);
    cache.remove(&DefId(3));
    assert_eq!(cache.lookup(&DefId(3)), None);
    assert_eq!(cache.lookup(&DefId(5)), Some(50));
    assert_eq!(cache.len(), 1);
    cache.clear();
    assert_eq!(cache.len(), 0);
}

#[test]
fn a_single_cache_forgets() {
    let mut cache = SingleCache::new();
    cache.insert((), 1u64);
    cache.insert((), 2u64);
    assert_eq!(cache.lookup(&()), Some(2));
    cache.remove(&());
    assert_eq!(cache.lookup(&()), None);
    assert_eq!(cache.len(), 0);
}

// ---------------------------------------------------------------------------
// Queries
// ---------------------------------------------------------------------------

fn plain(name: &'static str) -> Query {
    Query { id: 0, descriptor: QueryDescriptor::new(name, "") }
}

fn limited(name: &'static str) -> Query {
    Query { id: 0, descriptor: QueryDescriptor::new(name, "").with_depth_limit(true) }
}

fn deep() -> Query {
    limited("deep")
}

/// A query whose value is its key behind a word.
struct Prefixed(&'static str);

impl QueryProvider<TestKey, TestValue> for Prefixed {
    fn compute(
        &self,
        _q: u64,
        key: &TestKey,
        _system: &mut QuerySystem<TestKey, TestValue>,
    ) -> TestValue {
        TestValue(format!("{}_{}", self.0, key.0))
    }

    fn fingerprint(&self, _q: u64, value: &TestValue) -> u64 {
        text_fingerprint(&value.0)
    }
}

#[test]
fn test_query_system_get() {
    let mut system = QuerySystem::new();
    let provider = Prefixed("computed");
    let r = system.get(plain("q"), TestKey(42), &provider).unwrap();
    assert_eq!(r, value("computed_42"));
    let cached = system.get(plain("q"), TestKey(42), &provider).unwrap();
    assert_eq!(cached, value("computed_42"));
}

#[test]
fn test_query_handle() {
    let mut system = QuerySystem::new();
    let provider = Prefixed("handle");
    let mut handle = QueryHandle::new(&mut system, &provider);
    let r = handle.get(plain("q"), TestKey(7)).unwrap();
    assert_eq!(r, value("handle_7"));
    assert!(handle.ensure_ok(plain("q"), TestKey(7)).is_ok());
}

#[test]
fn test_incremental_invalidation() {
    let mut system = QuerySystem::new();
    let provider = Prefixed("computed");
    let r1 = system.get(plain("q"), TestKey(1), &provider).unwrap();
    assert_eq!(r1, value("computed_1"));
    let r2 = system.get(plain("q"), TestKey(1), &provider).unwrap();
    assert_eq!(r2, value("computed_1"));
    if let Some(node) = system.node(0, &TestKey(1)) {
        system.invalidate_node(node);
    }
    let r3 = system.get(plain("q"), TestKey(1), &provider).unwrap();
    assert_eq!(r3, value("computed_1"));
}

/// A query that counts how often it is computed.
struct Counting {
    counter: Cell<u64>,
}

impl QueryProvider<TestKey, TestValue> for Counting {
    fn compute(
        &self,
        _q: u64,
        key: &TestKey,
        _system: &mut QuerySystem<TestKey, TestValue>,
    ) -> TestValue {
        let n = self.counter.get();
        self.counter.set(n + 1);
        TestValue(format!("eval_{}_{}", key.0, n))
    }

    fn fingerprint(&self, _q: u64, value: &TestValue) -> u64 {
        text_fingerprint(&value.0)
    }
}

#[test]
fn test_eval_always() {
    let mut system = QuerySystem::new();
    let provider = Counting { counter: Cell::new(0) };
    let always = Query {
        id: 0,
        descriptor: QueryDescriptor::new("eval_always", "always re-computed").with_eval_always(true),
    };
    let r1 = system.get(always, TestKey(1), &provider).unwrap();
    assert_eq!(r1, value("eval_1_0"));
    let r2 = system.get(always, TestKey(1), &provider).unwrap();
    assert_eq!(r2, value("eval_1_1"));
}

#[test]
fn a_cached_value_is_not_computed_again() {
    let mut system = QuerySystem::new();
    let provider = Counting { counter: Cell::new(0) };
    let q0 = plain("q0");
    let q1 = Query { id: 1, ..plain("q1") };
    assert_eq!(system.get(q0, TestKey(1), &provider).unwrap(), value("eval_1_0"));
    assert_eq!(system.get(q0, TestKey(1), &provider).unwrap(), value("eval_1_0"));
    assert_eq!(system.get(q1, TestKey(1), &provider).unwrap(), value("eval_1_1"));
    system.invalidate(0, &TestKey(1));
    assert_eq!(system.get(q0, TestKey(1), &provider).unwrap(), value("eval_1_2"));
    system.clear(0);
    assert_eq!(system.get(q0, TestKey(1), &provider).unwrap(), value("eval_1_3"));
    assert_eq!(system.get(q1, TestKey(1), &provider).unwrap(), value("eval_1_1"));
    system.clear_all();
    assert_eq!(system.get(q1, TestKey(1), &provider).unwrap(), value("eval_1_4"));
}

#[test]
fn queries_are_listed() {
    let mut system = QuerySystem::new();
    let provider = Prefixed("p");
    assert!(system.list_queries().is_empty());
    system.get(plain("q"), TestKey(1), &provider).unwrap();
    system.get(plain("q"), TestKey(2), &provider).unwrap();
    assert_eq!(system.list_queries(), vec!["q"]);
}

/// A query that asks for itself with smaller keys.
struct Deep;

impl QueryProvider<TestKey, TestValue> for Deep {
    fn compute(
        &self,
        _q: u64,
        key: &TestKey,
        system: &mut QuerySystem<TestKey, TestValue>,
    ) -> TestValue {
        if key.0 > 0 {
            match query_get(self, system, deep(), TestKey(key.0 - 1)) {
                Ok(val) => return val,
                Err(_) => return TestValue(format!("depth_limit_at_{}", key.0)),
            }
        }
        TestValue(format!("deep_{}", key.0))
    }

    fn fingerprint(&self, _q: u64, value: &TestValue) -> u64 {
        text_fingerprint(&value.0)
    }
}

#[test]
fn test_depth_limit() {
    let mut system = QuerySystem::new();
    let provider = Deep;
    let mut handle = QueryHandle::new(&mut system, &provider);
    let r = handle.get(deep(), TestKey(5)).unwrap();
    assert_eq!(r, value("deep_0"));
    let r = handle.get(deep(), TestKey(200)).unwrap();
    assert_eq!(r, value("depth_limit_at_73"));
}

#[test]
fn test_par_get() {
    let mut system = QuerySystem::new();
    let provider = Prefixed("par");
    let keys: Vec<TestKey> = (0..10).map(TestKey).collect();
    let results = system.par_get(plain("p"), &keys, &provider);
    assert_eq!(results.len(), 10);
    for (i, result) in results.iter().enumerate() {
        assert_eq!(result.as_ref().unwrap(), &TestValue(format!("par_{}", i)));
    }
}

// ---------------------------------------------------------------------------
// Cycles, failures, workers
// ---------------------------------------------------------------------------

/// A query that asks for the key that `next` says, and notes a cycle.
struct Cyclic {
    next: fn(usize) -> usize,
}

impl QueryProvider<TestKey, TestValue> for Cyclic {
    fn compute(
        &self,
        _q: u64,
        key: &TestKey,
        system: &mut QuerySystem<TestKey, TestValue>,
    ) -> TestValue {
        match query_get(self, system, plain("cyclic"), TestKey((self.next)(key.0))) {
            Ok(v) => v,
            Err(_) => value("cycle_sentinel"),
        }
    }

    fn fingerprint(&self, _q: u64, value: &TestValue) -> u64 {
        text_fingerprint(&value.0)
    }
}

#[test]
fn d1_same_key_self_recursion() {
    let mut system = QuerySystem::new();
    let r = system.get(plain("d1"), TestKey(1), &Cyclic { next: |k| k });
    assert_eq!(r.unwrap(), value("cycle_sentinel"));
}

#[test]
fn d2_same_thread_cross_key_cycle() {
    let mut system = QuerySystem::new();
    let r = system.get(plain("d2"), TestKey(1), &Cyclic { next: |k| if k == 1 { 2 } else { 1 } });
    assert_eq!(r.unwrap(), value("cycle_sentinel"));
}

fn node_of(step: Step<TestKey, TestValue>) -> DepNodeIndex {
    match step {
        Step::Compute(node) => node,
        other => panic!("must compute, got {:?}", other),
    }
}

#[test]
fn d3_two_thread_mutual_dependency() {
    let d = QueryDescriptor::new("d3", "mutual-dependency query");
    let mut system: QuerySystem<TestKey, TestValue> = QuerySystem::new();
    let n1 = node_of(system.begin(1, 0, &TestKey(1), d));
    let n2 = node_of(system.begin(2, 0, &TestKey(2), d));
    assert!(matches!(system.begin(1, 0, &TestKey(2), d), Step::Wait(_)));
    match system.begin(2, 0, &TestKey(1), d) {
        Step::Failed(e) => assert_eq!(e.kind, CycleKind::WaitCycle),
        other => panic!("the cycle must surface, got {:?}", other),
    }
    let woken = system.finish(2, 0, TestKey(2), d, n2, value("cycle_sentinel"), 1);
    assert_eq!(woken.iter().map(|w| w.worker).collect::<Vec<u64>>(), vec![1]);
    let v = system.resume(1, 0, &TestKey(2), d).unwrap();
    assert_eq!(v, value("cycle_sentinel"));
    let woken = system.finish(1, 0, TestKey(1), d, n1, v, 2);
    assert!(woken.is_empty());
}

fn message(e: &QueryCycleError<TestKey>) -> String {
    let shown: Vec<String> = e.stack.iter().map(|k| format!("{:?}", k)).collect();
    e.message(&shown)
}

#[test]
fn d4_panic_poisons_latch() {
    let d = QueryDescriptor::new("d4", "panicking query");
    let mut system: QuerySystem<TestKey, TestValue> = QuerySystem::new();
    let node = node_of(system.begin(1, 0, &TestKey(1), d));
    assert!(matches!(system.begin(2, 0, &TestKey(1), d), Step::Wait(_)));
    let woken = system.fail(1, 0, TestKey(1), node);
    assert_eq!(woken.iter().map(|w| w.worker).collect::<Vec<u64>>(), vec![2]);
    let e = system.resume(2, 0, &TestKey(1), d).unwrap_err();
    let msg = message(&e).to_lowercase();
    assert!(msg.contains("poisoned") || msg.contains("panicked"));
    match system.begin(3, 0, &TestKey(1), d) {
        Step::Failed(e) => {
            assert_eq!(e.kind, CycleKind::PreviouslyPanicked);
            assert_eq!(message(&e), "query previously panicked: `d4` with key `TestKey(1)`");
        }
        other => panic!("a poisoned key must stay poisoned, got {:?}", other),
    }
}

#[test]
fn d5_eval_always_parallel_same_key() {
    let d = QueryDescriptor::new("d5", "eval-always parallel query").with_eval_always(true);
    let mut system: QuerySystem<TestKey, TestValue> = QuerySystem::new();
    let a = node_of(system.begin(1, 0, &TestKey(1), d));
    let b = node_of(system.begin(2, 0, &TestKey(1), d));
    assert!(system.finish(2, 0, TestKey(1), d, b, value("1"), 1).is_empty());
    assert!(system.finish(1, 0, TestKey(1), d, a, value("1"), 1).is_empty());
}

#[test]
fn d6_par_get_depth_limit_per_thread() {
    struct Chains;

    impl QueryProvider<TestKey, TestValue> for Chains {
        fn compute(
            &self,
            _q: u64,
            key: &TestKey,
            system: &mut QuerySystem<TestKey, TestValue>,
        ) -> TestValue {
            if key.0 % 1000 > 0 {
                match query_get(self, system, limited("d6"), TestKey(key.0 - 1)) {
                    Ok(v) => v,
                    Err(_) => TestValue(format!("depth_limit_at_{}", key.0)),
                }
            } else {
                TestValue(format!("sem_{}", key.0))
            }
        }

        fn fingerprint(&self, _q: u64, value: &TestValue) -> u64 {
            text_fingerprint(&value.0)
        }
    }

    let mut system = QuerySystem::new();
    let keys: Vec<TestKey> = (0..8).map(|r| TestKey(r * 1000 + 100)).collect();
    let results = system.par_get(limited("d6"), &keys, &Chains);
    assert_eq!(results.len(), 8);
    for (i, r) in results.iter().enumerate() {
        let v = r.as_ref().unwrap();
        assert!(!v.0.contains("depth_limit"), "root {}: {:?}", i, v);
    }
}

#[test]
fn depth_is_counted_for_each_worker() {
    let d = QueryDescriptor::new("deep", "").with_depth_limit(true);
    let mut system: QuerySystem<TestKey, TestValue> = QuerySystem::new();
    for k in 0..MAX_QUERY_DEPTH {
        node_of(system.begin(1, 0, &TestKey(k), d));
    }
    node_of(system.begin(2, 0, &TestKey(1000), d));
    match system.begin(1, 0, &TestKey(2000), d) {
        Step::Failed(e) => {
            assert_eq!(e.kind, CycleKind::DepthLimit);
            assert_eq!(e.stack.len(), MAX_QUERY_DEPTH);
            assert!(message(&e).starts_with(
                "query depth limit exceeded: `deep` depth 129 >= 128\n  call stack:\n      0: TestKey(0)\n      1: TestKey(1)\n"
            ));
        }
        other => panic!("must be too deep, got {:?}", other),
    }
}

#[test]
fn d7_parallel_same_key_dedup() {
    let d = QueryDescriptor::new("d7", "dedup guard query");
    let mut system: QuerySystem<TestKey, TestValue> = QuerySystem::new();
    let node = node_of(system.begin(1, 0, &TestKey(7), d));
    assert!(matches!(system.begin(2, 0, &TestKey(7), d), Step::Wait(_)));
    let woken = system.finish(1, 0, TestKey(7), d, node, value("sem_7"), 7);
    assert_eq!(woken.len(), 1);
    assert!(woken[0].completed);
    assert_eq!(system.resume(2, 0, &TestKey(7), d).unwrap(), value("sem_7"));
}

#[test]
fn a_value_that_left_the_cache_is_not_found() {
    let d = QueryDescriptor::new("gone", "");
    let mut system: QuerySystem<TestKey, TestValue> = QuerySystem::new();
    let node = node_of(system.begin(1, 0, &TestKey(7), d));
    assert!(matches!(system.begin(2, 0, &TestKey(7), d), Step::Wait(_)));
    system.finish(1, 0, TestKey(7), d, node, value("sem_7"), 7);
    system.clear(0);
    let e = system.resume(2, 0, &TestKey(7), d).unwrap_err();
    assert_eq!(e.kind, CycleKind::NotFound);
    assert_eq!(message(&e), "query result not found after waiting: `gone` with key `TestKey(7)`");
}

#[test]
fn a_cycle_is_spelled_out() {
    let mut vtable: QueryVTable<TestKey, TestValue> =
        QueryVTable::new(QueryDescriptor::new("loop", ""));
    assert!(vtable.enter(1, &TestKey(1)).is_ok());
    assert!(vtable.enter(1, &TestKey(2)).is_ok());
    let e = vtable.enter(1, &TestKey(1)).unwrap_err();
    assert_eq!(e.kind, CycleKind::Cycle);
    assert_eq!(
        message(&e),
        "query cycle detected: `loop` with key `TestKey(1)`\n  call stack:\n      0: TestKey(1)\n      1: TestKey(2)\n      2: TestKey(1)"
    );
    assert!(vtable.enter(2, &TestKey(1)).is_ok());
    vtable.leave(1);
    assert_eq!(vtable.stack(1), vec![TestKey(1)]);
    assert!(vtable.enter(1, &TestKey(2)).is_ok());
}

#[test]
fn a_waiter_gives_up() {
    let d = QueryDescriptor::new("w", "");
    let mut system: QuerySystem<TestKey, TestValue> = QuerySystem::new();
    node_of(system.begin(1, 0, &TestKey(1), d));
    node_of(system.begin(2, 0, &TestKey(2), d));
    assert!(matches!(system.begin(1, 0, &TestKey(2), d), Step::Wait(_)));
    system.stop_waiting(1);
    assert!(matches!(system.begin(2, 0, &TestKey(1), d), Step::Wait(_)));
}

// ---------------------------------------------------------------------------
// Fingerprints
// ---------------------------------------------------------------------------

#[derive(Debug, Clone, PartialEq, Eq)]
struct FpValue {
    raw: String,
    semantic: u64,
}

const INPUT: u64 = 0;
const DOWNSTREAM: u64 = 1;

fn input() -> Query {
    Query { id: INPUT, descriptor: QueryDescriptor::new("gin", "input query") }
}

fn downstream() -> Query {
    Query { id: DOWNSTREAM, descriptor: QueryDescriptor::new("gdown", "downstream query") }
}

/// An input and a query that reads it.
struct Layers {
    i_count: Cell<u64>,
    d_count: Cell<u64>,
    i_semantic: Cell<u64>,
}

impl QueryProvider<TestKey, FpValue> for Layers {
    fn compute(
        &self,
        q: u64,
        key: &TestKey,
        system: &mut QuerySystem<TestKey, FpValue>,
    ) -> FpValue {
        if q == INPUT {
            let n = self.i_count.get() + 1;
            self.i_count.set(n);
            FpValue { raw: format!("i_{}_{}", key.0, n), semantic: self.i_semantic.get() }
        } else {
            let n = self.d_count.get() + 1;
            self.d_count.set(n);
            let i = query_get(self, system, input(), key.clone()).expect("downstream input read");
            FpValue { raw: format!("d_{}_{}", key.0, n), semantic: 100 + i.semantic }
        }
    }

    fn fingerprint(&self, _q: u64, value: &FpValue) -> u64 {
        value.semantic
    }
}

fn layers() -> Layers {
    Layers { i_count: Cell::new(0), d_count: Cell::new(0), i_semantic: Cell::new(42) }
}

#[test]
fn g1_semantic_unchanged_input_no_downstream_recompute() {
    let provider = layers();
    let mut system = QuerySystem::new();
    let _ = system.get(downstream(), TestKey(1), &provider).unwrap();
    assert_eq!(provider.i_count.get(), 1);
    assert_eq!(provider.d_count.get(), 1);
    system.invalidate(INPUT, &TestKey(1));
    let _ = system.get(input(), TestKey(1), &provider).unwrap();
    assert_eq!(provider.i_count.get(), 2, "input must recompute after invalidation");
    let _ = system.get(downstream(), TestKey(1), &provider).unwrap();
    assert_eq!(
        provider.d_count.get(),
        1,
        "downstream recompute delta must be 0 when the input fingerprint is unchanged"
    );
}

#[test]
fn g1b_semantic_changed_input_downstream_recomputes() {
    let provider = layers();
    let mut system = QuerySystem::new();
    let _ = system.get(downstream(), TestKey(1), &provider).unwrap();
    assert_eq!(provider.i_count.get(), 1);
    assert_eq!(provider.d_count.get(), 1);
    system.invalidate(INPUT, &TestKey(1));
    provider.i_semantic.set(43);
    let _ = system.get(input(), TestKey(1), &provider).unwrap();
    assert_eq!(provider.i_count.get(), 2, "input must recompute after invalidation");
    let v = system.get(downstream(), TestKey(1), &provider).unwrap();
    assert_eq!(
        provider.d_count.get(),
        2,
        "changed fingerprint must propagate to downstream readers"
    );
    assert_eq!(v.semantic, 143);
}

#[test]
fn a_changed_input_reaches_its_reader() {
    let provider = layers();
    let mut system = QuerySystem::new();
    let _ = system.get(downstream(), TestKey(1), &provider).unwrap();
    system.invalidate(INPUT, &TestKey(1));
    provider.i_semantic.set(50);
    let v = system.get(downstream(), TestKey(1), &provider).unwrap();
    assert_eq!(v.semantic, 150);
    assert_eq!(provider.i_count.get(), 2);
    assert_eq!(provider.d_count.get(), 2);
}

#[test]
fn an_unchanged_input_keeps_its_reader() {
    let provider = layers();
    let mut system = QuerySystem::new();
    let _ = system.get(downstream(), TestKey(1), &provider).unwrap();
    system.invalidate(INPUT, &TestKey(1));
    let v = system.get(downstream(), TestKey(1), &provider).unwrap();
    assert_eq!(v.semantic, 142);
    assert_eq!(provider.i_count.get(), 2, "the input is computed again");
    assert_eq!(provider.d_count.get(), 1, "its reader is not");
}

/// Key `100 * s + n` is `n` steps above the source `s`.
struct Tower {
    source: Cell<u64>,
    count: Cell<u64>,
}

impl QueryProvider<TestKey, FpValue> for Tower {
    fn compute(
        &self,
        q: u64,
        key: &TestKey,
        system: &mut QuerySystem<TestKey, FpValue>,
    ) -> FpValue {
        self.count.set(self.count.get() + 1);
        let semantic = if key.0 % 100 == 0 {
            self.source.get()
        } else {
            let below = Query { id: q, descriptor: QueryDescriptor::new("tower", "one step") };
            query_get(self, system, below, TestKey(key.0 - 1)).unwrap().semantic / 2
        };
        FpValue { raw: String::new(), semantic }
    }

    fn fingerprint(&self, _q: u64, value: &FpValue) -> u64 {
        value.semantic
    }
}

#[test]
fn a_change_goes_up_as_far_as_it_matters() {
    let provider = Tower { source: Cell::new(16), count: Cell::new(0) };
    let tower = Query { id: 7, descriptor: QueryDescriptor::new("tower", "one step") };
    let mut system = QuerySystem::new();
    assert_eq!(system.get(tower, TestKey(3), &provider).unwrap().semantic, 2);
    assert_eq!(provider.count.get(), 4);
    system.invalidate(7, &TestKey(0));
    provider.source.set(17);
    assert_eq!(system.get(tower, TestKey(3), &provider).unwrap().semantic, 2);
    assert_eq!(provider.count.get(), 6, "the source and its direct reader");
    system.invalidate(7, &TestKey(0));
    provider.source.set(32);
    assert_eq!(system.get(tower, TestKey(3), &provider).unwrap().semantic, 4);
    assert_eq!(provider.count.get(), 10);
}

/// How many of the keys below `n` are computed when each is asked for twice, in
/// two rounds.
fn computed_in_two_rounds(capacity: usize, n: usize) -> u64 {
    let provider = Counting { counter: Cell::new(0) };
    let q = Query {
        id: 0,
        descriptor: QueryDescriptor::new("q", "").with_cache_capacity(capacity),
    };
    let mut system = QuerySystem::new();
    for _ in 0..2 {
        for k in 0..n {
            system.get(q, TestKey(k), &provider).unwrap();
        }
    }
    provider.counter.get()
}

#[test]
fn a_query_has_the_cache_that_it_asks_for() {
    assert_eq!(computed_in_two_rounds(0, 600), 600, "no limit");
    assert_eq!(computed_in_two_rounds(3, 3), 3, "all of them fit");
    assert_eq!(computed_in_two_rounds(2, 3), 6, "the oldest goes first");
    assert_eq!(computed_in_two_rounds(512, 512), 512);
}

#[test]
fn ensuring_agrees_with_getting() {
    let provider = Prefixed("p");
    let mut one = QuerySystem::new();
    let mut other = QuerySystem::new();
    assert!(one.ensure_ok(plain("q"), TestKey(1), &provider).is_ok());
    let got = other.get(plain("q"), TestKey(1), &provider).unwrap();
    assert_eq!(one.get(plain("q"), TestKey(1), &provider).unwrap(), got);
    let mut cyclic = QuerySystem::new();
    let ensured = cyclic.ensure_ok(plain("q"), TestKey(1), &provider);
    let second = cyclic.ensure_ok(plain("q"), TestKey(1), &provider);
    assert_eq!(ensured.is_ok(), second.is_ok());
}

#[test]
fn invalidating_computes_one_key_once_more() {
    let provider = Counting { counter: Cell::new(0) };
    let mut system = QuerySystem::new();
    for k in 0..3 {
        system.get(plain("q"), TestKey(k), &provider).unwrap();
    }
    system.invalidate(0, &TestKey(1));
    for _ in 0..2 {
        assert_eq!(system.get(plain("q"), TestKey(0), &provider).unwrap(), value("eval_0_0"));
        assert_eq!(system.get(plain("q"), TestKey(1), &provider).unwrap(), value("eval_1_3"));
        assert_eq!(system.get(plain("q"), TestKey(2), &provider).unwrap(), value("eval_2_2"));
    }
    system.invalidate(0, &TestKey(9));
    assert_eq!(system.get(plain("q"), TestKey(1), &provider).unwrap(), value("eval_1_3"));
    assert_eq!(provider.counter.get(), 4);
}

#[test]
fn ensuring_leaves_the_value() {
    let provider = layers();
    let mut system = QuerySystem::new();
    system.ensure_ok(input(), TestKey(1), &provider).unwrap();
    assert_eq!(system.get(input(), TestKey(1), &provider).unwrap().semantic, 42);
    assert_eq!(provider.i_count.get(), 1);
    assert_eq!(system.list_queries().len(), 1);
}

// ---------------------------------------------------------------------------
// The graph of what reads what
// ---------------------------------------------------------------------------

fn task(dg: &mut DepGraph, node: DepNodeIndex, reads: &[DepNodeIndex]) {
    let mut stack = TaskStack::new();
    stack.start_task(node);
    for r in reads {
        stack.read(*r);
    }
    dg.finish_task(&mut stack);
}

fn setup_chain(dg: &mut DepGraph) -> (DepNodeIndex, DepNodeIndex, DepNodeIndex) {
    let a = dg.allocate_node_index();
    let b = dg.allocate_node_index();
    let c = dg.allocate_node_index();
    task(dg, a, &[b]);
    task(dg, b, &[c]);
    (a, b, c)
}

#[test]
fn test_invalidate_marks_node_only_not_readers() {
    let mut dg = DepGraph::new();
    let (a, b, c) = setup_chain(&mut dg);
    dg.invalidate(c);
    assert!(!dg.is_green(c));
    assert!(dg.is_green(b), "lazy invalidation: readers must stay green");
    assert!(dg.is_green(a));
}

#[test]
fn staleness_goes_through_reads() {
    let mut dg = DepGraph::new();
    let (a, b, c) = setup_chain(&mut dg);
    assert!(!dg.is_stale(a));
    dg.invalidate(c);
    assert!(dg.is_stale(a));
    assert!(dg.is_ripe(c));
    dg.invalidate(b);
    assert!(!dg.is_ripe(b));
    assert_eq!(dg.all_reads(b).len(), 2);
}

#[test]
fn test_fingerprint_change_dirties_direct_readers_only() {
    let mut dg = DepGraph::new();
    let (a, b, c) = setup_chain(&mut dg);
    dg.set_fingerprint(c, 1);
    dg.dirty_readers(c);
    assert!(!dg.is_green(b), "b reads c directly, must be dirtied");
    assert!(dg.is_green(a), "a reads b only transitively, must stay green");
}

#[test]
fn test_fingerprint_roundtrip() {
    let mut dg = DepGraph::new();
    let n = dg.allocate_node_index();
    assert_eq!(dg.fingerprint(n), None);
    dg.set_fingerprint(n, 42);
    assert_eq!(dg.fingerprint(n), Some(42));
    dg.set_fingerprint(n, 43);
    assert_eq!(dg.fingerprint(n), Some(43));
}

#[test]
fn test_rev_edges_independent_nodes() {
    let mut dg = DepGraph::new();
    let a = dg.allocate_node_index();
    let b = dg.allocate_node_index();
    task(&mut dg, a, &[b]);
    dg.invalidate(a);
    assert!(!dg.is_green(a));
    assert!(dg.is_green(b));
}

#[test]
fn test_rev_edges_fan_out() {
    let mut dg = DepGraph::new();
    let root = dg.allocate_node_index();
    let x = dg.allocate_node_index();
    let y = dg.allocate_node_index();
    let z = dg.allocate_node_index();
    for &reader in &[x, y, z] {
        task(&mut dg, reader, &[root]);
    }
    dg.invalidate(root);
    assert!(!dg.is_green(root));
    assert!(dg.is_green(x), "invalidate alone must not propagate");
    assert!(dg.is_green(y));
    assert!(dg.is_green(z));
    dg.dirty_readers(root);
    assert!(!dg.is_green(x));
    assert!(!dg.is_green(y));
    assert!(!dg.is_green(z));
}

#[test]
fn test_allocate_node_resizes_rev_edges() {
    let mut dg = DepGraph::new();
    let a = dg.allocate_node_index();
    let b = dg.allocate_node_index();
    assert!(a.0 < b.0);
    assert!(dg.rev_edges.len() > b.0 as usize);
}

#[test]
fn a_graph_starts_anew() {
    let mut dg = DepGraph::new();
    let (_, b, c) = setup_chain(&mut dg);
    dg.invalidate(c);
    dg.mark_green(c);
    assert!(dg.is_green(c));
    dg.dirty_readers(c);
    dg.reset();
    assert!(dg.is_green(b));
    assert_eq!(dg.allocate_node_index(), DepNodeIndex(1));
}

#[test]
fn reads_are_listed_in_order() {
    let mut deps = TaskDeps::new(DepNodeIndex(4));
    for n in [9, 2, 4, 7, 2] {
        deps.read(DepNodeIndex(n));
    }
    assert_eq!(deps.current_node(), DepNodeIndex(4));
    assert_eq!(deps.into_reads(), vec![DepNodeIndex(2), DepNodeIndex(7), DepNodeIndex(9)]);
}

#[test]
fn tasks_nest() {
    let mut stack = TaskStack::new();
    assert_eq!(stack.current_node(), None);
    stack.start_task(DepNodeIndex(1));
    stack.start_task(DepNodeIndex(2));
    assert_eq!(stack.current_node(), Some(DepNodeIndex(2)));
    stack.clear();
    assert_eq!(stack.current_node(), None);
}

// ---------------------------------------------------------------------------
// Jobs
// ---------------------------------------------------------------------------

#[test]
fn test_query_latch_basic() {
    let mut latch = QueryLatch::new();
    assert!(!latch.is_complete());
    assert_eq!(latch.wait_on(1), Ok(false));
    let woken = latch.set();
    assert_eq!(woken.len(), 1);
    assert!(latch.is_complete());
}

#[test]
fn test_query_latch_multiple_waiters() {
    let mut latch = QueryLatch::new();
    for worker in 1..4 {
        assert_eq!(latch.wait_on(worker), Ok(false));
    }
    let woken = latch.set();
    assert_eq!(woken.iter().map(|w| w.worker).collect::<Vec<u64>>(), vec![1, 2, 3]);
    assert!(woken.iter().all(|w| w.completed));
}

#[test]
fn test_query_job_id_unique() {
    let mut counter = JobCounter::new();
    let id1 = QueryJobId::fresh(&mut counter);
    let id2 = QueryJobId::fresh(&mut counter);
    assert_ne!(id1, id2);
}

#[test]
fn test_signal_complete_before_wait() {
    let mut latch = QueryLatch::new();
    latch.set();
    assert!(latch.is_complete());
    assert_eq!(latch.wait_on(1), Ok(true));
}

#[test]
fn a_poisoned_latch_fails_its_waiters() {
    let mut latch = QueryLatch::new();
    assert_eq!(latch.wait_on(1), Ok(false));
    assert_eq!(latch.poison().len(), 1);
    assert!(latch.is_complete());
    assert_eq!(latch.wait_on(2), Err(Poisoned));
    assert!(latch.set().is_empty());
    assert_eq!(latch.wait_on(2), Err(Poisoned));
}

#[test]
fn a_finished_job_wakes_its_waiters() {
    let mut counter = JobCounter::new();
    let mut job = QueryJob::new(DepNodeIndex(3), 9, &mut counter);
    assert_eq!(job.dep_node, DepNodeIndex(3));
    assert_eq!(job.owner, 9);
    assert_eq!(job.latch.wait_on(4), Ok(false));
    assert_eq!(job.signal_complete().len(), 1);
}

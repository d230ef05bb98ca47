//! The order of keys: integers before symbols, integers by size and symbols by name, the first
//! value that differs decides.

use vstd::prelude::*;

use crate::engine;
use crate::engine::{Engine, Value};
use crate::snapshot::ValueView;
use crate::sorted;
use crate::text;

verus! {

/// Whether a value stands before another.
pub open spec fn value_before(a: ValueView, b: ValueView) -> bool {
    match (a, b) {
        (ValueView::Integer(i), ValueView::Integer(j)) => i < j,
        (ValueView::Integer(_), ValueView::Symbol(_)) => true,
        (ValueView::Symbol(_), ValueView::Integer(_)) => false,
        (ValueView::Symbol(s), ValueView::Symbol(t)) => text::before(s, t),
    }
}

/// Whether a key stands before another.
pub open spec fn key_before(a: Seq<ValueView>, b: Seq<ValueView>) -> bool
    decreases a.len(),
{
    if b.len() == 0 {
        false
    } else if a.len() == 0 {
        true
    } else if a[0] != b[0] {
        value_before(a[0], b[0])
    } else {
        key_before(a.drop_first(), b.drop_first())
    }
}

/// Whether keys stand in order, none twice.
pub open spec fn keys_ordered(keys: Seq<Seq<ValueView>>) -> bool {
    forall|i: int, j: int|
        0 <= i < j < keys.len() ==> key_before(#[trigger] keys[i], #[trigger] keys[j])
}

proof fn lemma_value_order(a: ValueView, b: ValueView, c: ValueView)
    ensures
        !value_before(a, a),
        a != b ==> value_before(a, b) || value_before(b, a),
        value_before(a, b) && value_before(b, c) ==> value_before(a, c),
{
    if let ValueView::Symbol(s) = a {
        sorted::before_is_irreflexive(s);
        if let ValueView::Symbol(t) = b {
            sorted::before_is_total(s, t);
            if let ValueView::Symbol(u) = c {
                if value_before(a, b) && value_before(b, c) {
                    sorted::before_is_transitive(s, t, u);
                }
            }
        }
    }
}

/// No key stands before itself.
pub proof fn key_order_is_irreflexive(a: Seq<ValueView>)
    ensures
        !key_before(a, a),
    decreases a.len(),
{
    if a.len() > 0 {
        key_order_is_irreflexive(a.drop_first());
    }
}

/// Of two different keys one stands before the other.
pub proof fn key_order_is_total(a: Seq<ValueView>, b: Seq<ValueView>)
    ensures
        a != b ==> key_before(a, b) || key_before(b, a),
    decreases a.len(),
{
    if a.len() == 0 || b.len() == 0 {
        if a.len() == b.len() {
            assert(a =~= b);
        }
    } else if a[0] == b[0] {
        key_order_is_total(a.drop_first(), b.drop_first());
        if a.drop_first() == b.drop_first() {
            assert(a =~= seq![a[0]] + a.drop_first());
            assert(b =~= seq![b[0]] + b.drop_first());
        }
    } else {
        lemma_value_order(a[0], b[0], a[0]);
    }
}

/// The order of keys is transitive.
pub proof fn key_order_is_transitive(
    a: Seq<ValueView>,
    b: Seq<ValueView>,
    c: Seq<ValueView>,
)
    requires
        key_before(a, b),
        key_before(b, c),
    ensures
        key_before(a, c),
    decreases a.len(),
{
    if a.len() > 0 && b.len() > 0 && c.len() > 0 {
        lemma_value_order(a[0], b[0], c[0]);
        lemma_value_order(c[0], b[0], a[0]);
        lemma_value_order(b[0], a[0], b[0]);
        lemma_value_order(a[0], b[0], a[0]);
        if a[0] == b[0] && b[0] == c[0] {
            key_order_is_transitive(a.drop_first(), b.drop_first(), c.drop_first());
        }
    }
}

/// A key that stands behind those before its place, and before those behind it, can be put there.
pub proof fn lemma_insert(keys: Seq<Seq<ValueView>>, key: Seq<ValueView>, at: int)
    requires
        keys_ordered(keys),
        0 <= at <= keys.len(),
        forall|i: int| 0 <= i < at ==> key_before(#[trigger] keys[i], key),
        at < keys.len() ==> key_before(key, keys[at]),
    ensures
        keys_ordered(keys.insert(at, key)),
        forall|x: Seq<ValueView>|
            #[trigger] keys.insert(at, key).contains(x) <==> keys.contains(x) || x == key,
{
    let after = keys.insert(at, key);
    assert forall|i: int, j: int| 0 <= i < j < after.len() implies key_before(
        #[trigger] after[i],
        #[trigger] after[j],
    ) by {
        let a = if i < at {
            i
        } else {
            i - 1
        };
        let b = if j < at {
            j
        } else {
            j - 1
        };
        if i < at && j > at {
            assert(key_before(keys[a], keys[b]));
        } else if i == at {
            if b > at {
                assert(key_before(keys[at], keys[b]));
                key_order_is_transitive(key, keys[at], keys[b]);
            }
        } else if j == at {
            assert(key_before(keys[a], key));
        } else {
            assert(key_before(keys[a], keys[b]));
        }
    }
    assert forall|x: Seq<ValueView>| #[trigger] after.contains(x) <==> keys.contains(x) || x
        == key by {
        assert(after[at] == key);
        if keys.contains(x) {
            let i = choose|i: int| 0 <= i < keys.len() && keys[i] == x;
            let k = if i < at {
                i
            } else {
                i + 1
            };
            assert(after[k] == x);
        }
        if after.contains(x) {
            let k = choose|k: int| 0 <= k < after.len() && after[k] == x;
            if k < at {
                assert(keys[k] == x);
            } else if k > at {
                assert(keys[k - 1] == x);
            }
        }
    }
}

/// A key has a place among keys in order.
proof fn lemma_place(keys: Seq<Seq<ValueView>>, key: Seq<ValueView>) -> (at: int)
    requires
        keys_ordered(keys),
        !keys.contains(key),
    ensures
        0 <= at <= keys.len(),
        forall|i: int| 0 <= i < at ==> key_before(#[trigger] keys[i], key),
        at < keys.len() ==> key_before(key, keys[at]),
    decreases keys.len(),
{
    if keys.len() == 0 {
        0
    } else {
        let fewer = keys.drop_last();
        let last = keys.last();
        assert(keys.contains(last)) by {
            assert(keys[keys.len() - 1] == last);
        }
        key_order_is_total(last, key);
        if key_before(last, key) {
            assert forall|i: int| 0 <= i < keys.len() implies key_before(
                #[trigger] keys[i],
                key,
            ) by {
                if i < keys.len() - 1 {
                    assert(key_before(keys[i], keys[keys.len() - 1]));
                    key_order_is_transitive(keys[i], last, key);
                }
            }
            keys.len() as int
        } else {
            assert(keys_ordered(fewer)) by {
                assert forall|i: int, j: int| 0 <= i < j < fewer.len() implies key_before(
                    #[trigger] fewer[i],
                    #[trigger] fewer[j],
                ) by {
                    assert(fewer[i] == keys[i] && fewer[j] == keys[j]);
                }
            }
            assert(!fewer.contains(key)) by {
                if fewer.contains(key) {
                    let i = choose|i: int| 0 <= i < fewer.len() && fewer[i] == key;
                    assert(keys[i] == key);
                }
            }
            let at = lemma_place(fewer, key);
            assert forall|i: int| 0 <= i < at implies key_before(#[trigger] keys[i], key) by {
                assert(fewer[i] == keys[i]);
            }
            if at < fewer.len() {
                assert(fewer[at] == keys[at]);
            }
            at
        }
    }
}

/// The keys of a finite set can be listed in order.
pub proof fn lemma_listed(all: Set<Seq<ValueView>>) -> (keys: Seq<Seq<ValueView>>)
    requires
        all.finite(),
    ensures
        keys_ordered(keys),
        forall|key: Seq<ValueView>| #[trigger] keys.contains(key) <==> all.contains(key),
    decreases all.len(),
{
    if all.len() == 0 {
        assert(all =~= Set::empty());
        Seq::empty()
    } else {
        let key = all.choose();
        let rest = lemma_listed(all.remove(key));
        let at = lemma_place(rest, key);
        lemma_insert(rest, key, at);
        rest.insert(at, key)
    }
}

/// Two lists in order that hold the same keys are one.
pub proof fn lemma_same_keys(a: Seq<Seq<ValueView>>, b: Seq<Seq<ValueView>>)
    requires
        keys_ordered(a),
        keys_ordered(b),
        forall|key: Seq<ValueView>| a.contains(key) <==> #[trigger] b.contains(key),
    ensures
        a == b,
    decreases a.len(),
{
    if a.len() == 0 || b.len() == 0 {
        if a.len() > 0 {
            assert(a.contains(a[0]));
            assert(b.contains(a[0]));
        }
        if b.len() > 0 {
            assert(b.contains(b[0]));
        }
        assert(a =~= b);
    } else {
        let last = a.last();
        let other = b.last();
        assert(a.contains(last) && b.contains(other));
        assert(b.contains(last) && a.contains(other));
        let i = choose|i: int| 0 <= i < b.len() && b[i] == last;
        let j = choose|j: int| 0 <= j < a.len() && a[j] == other;
        if last != other {
            assert(key_before(b[i], b[b.len() - 1]));
            assert(key_before(a[j], a[a.len() - 1]));
            key_order_is_transitive(last, other, last);
            key_order_is_irreflexive(last);
        }
        let fewer_a = a.drop_last();
        let fewer_b = b.drop_last();
        assert forall|key: Seq<ValueView>| fewer_a.contains(key) <==> #[trigger] fewer_b.contains(
            key,
        ) by {
            lemma_fewer(a, key);
            lemma_fewer(b, key);
            assert(a.contains(key) <==> b.contains(key));
        }
        lemma_same_keys(fewer_a, fewer_b);
        assert(a =~= fewer_a.push(last));
        assert(b =~= fewer_b.push(other));
    }
}

proof fn lemma_fewer(list: Seq<Seq<ValueView>>, key: Seq<ValueView>)
    requires
        keys_ordered(list),
        list.len() > 0,
    ensures
        keys_ordered(list.drop_last()),
        list.drop_last().contains(key) <==> list.contains(key) && key != list.last(),
{
    let fewer = list.drop_last();
    assert forall|i: int, j: int| 0 <= i < j < fewer.len() implies key_before(
        #[trigger] fewer[i],
        #[trigger] fewer[j],
    ) by {
        assert(fewer[i] == list[i] && fewer[j] == list[j]);
    }
    if fewer.contains(key) {
        let i = choose|i: int| 0 <= i < fewer.len() && fewer[i] == key;
        assert(list[i] == key);
        assert(key_before(list[i], list[list.len() - 1]));
        key_order_is_irreflexive(key);
    }
    if list.contains(key) && key != list.last() {
        let i = choose|i: int| 0 <= i < list.len() && list[i] == key;
        assert(fewer[i] == key);
    }
}

/// Whether a value stands before another.
fn check_value_before(engine: &Engine, a: &Value, b: &Value) -> (yes: bool)
    requires
        engine.wf(),
        engine::known(engine@.names, *a),
        engine::known(engine@.names, *b),
    ensures
        yes == value_before(
            engine::value_view(engine@.names, *a),
            engine::value_view(engine@.names, *b),
        ),
{
    match (a, b) {
        (Value::Int(i), Value::Int(j)) => *i < *j,
        (Value::Int(_), Value::Sym(_)) => true,
        (Value::Sym(_), Value::Int(_)) => false,
        (Value::Sym(_), Value::Sym(_)) => text::is_before(
            engine.display(a).as_str(),
            engine.display(b).as_str(),
        ),
    }
}

/// Whether a key stands before another.
pub fn check_key_before(engine: &Engine, a: &Vec<Value>, b: &Vec<Value>) -> (yes: bool)
    requires
        engine.wf(),
        engine::known_key(engine@.names, a@),
        engine::known_key(engine@.names, b@),
    ensures
        yes == key_before(
            engine::key_view(engine@.names, a@),
            engine::key_view(engine@.names, b@),
        ),
{
    let ghost names = engine@.names;
    let ghost left = engine::key_view(names, a@);
    let ghost right = engine::key_view(names, b@);
    let mut i: usize = 0;
    assert(left.skip(0) =~= left);
    assert(right.skip(0) =~= right);
    while i < a.len() && i < b.len()
        invariant
            engine.wf(),
            names == engine@.names,
            engine::known_key(names, a@),
            engine::known_key(names, b@),
            left == engine::key_view(names, a@),
            right == engine::key_view(names, b@),
            i <= a@.len(),
            i <= b@.len(),
            key_before(left, right) == key_before(left.skip(i as int), right.skip(i as int)),
        decreases a@.len() - i,
    {
        proof {
            assert(engine::known(names, a@[i as int]) && engine::known(names, b@[i as int]));
            engine.lemma_distinct();
            engine::lemma_values(names, a@[i as int], b@[i as int]);
            assert(left.skip(i as int)[0] == engine::value_view(names, a@[i as int]));
            assert(right.skip(i as int)[0] == engine::value_view(names, b@[i as int]));
            assert(left.skip(i as int).drop_first() =~= left.skip(i as int + 1));
            assert(right.skip(i as int).drop_first() =~= right.skip(i as int + 1));
        }
        if a[i] != b[i] {
            return check_value_before(engine, &a[i], &b[i]);
        }
        i = i + 1;
    }
    i < b.len()
}

} // verus!

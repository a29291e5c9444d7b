//! Association sequences keyed by [`ClientId`]: the ghost model both the
//! scheduler's client table and the accumulator's statistics table are
//! proved against. Keys are unique; lookup is by the unique index.

use vstd::prelude::*;
use crate::client_id::ClientId;

verus! {

/// Whether the association sequence `s` holds an entry keyed by `id`.
pub open spec fn assoc_has<V>(s: Seq<(ClientId, V)>, id: ClientId) -> bool {
    exists|i: int| 0 <= i < s.len() && (#[trigger] s[i]).0 == id
}

/// The index of the entry keyed by `id` (unique under `assoc_unique`).
pub open spec fn assoc_index<V>(s: Seq<(ClientId, V)>, id: ClientId) -> int {
    choose|i: int| 0 <= i < s.len() && (#[trigger] s[i]).0 == id
}

/// The value stored under `id`.
pub open spec fn assoc_val<V>(s: Seq<(ClientId, V)>, id: ClientId) -> V {
    s[assoc_index(s, id)].1
}

/// Keys occur at most once.
pub open spec fn assoc_unique<V>(s: Seq<(ClientId, V)>) -> bool {
    forall|i: int, j: int| 0 <= i < j < s.len() ==> (#[trigger] s[i]).0 != (#[trigger] s[j]).0
}

/// Under unique keys, an entry with key `id` at index `i` pins the lookup
/// functions to that index.
pub proof fn lemma_assoc_index_pins<V>(s: Seq<(ClientId, V)>, id: ClientId, i: int)
    requires
        assoc_unique(s),
        0 <= i < s.len(),
        s[i].0 == id,
    ensures
        assoc_has(s, id),
        assoc_index(s, id) == i,
        assoc_val(s, id) == s[i].1,
{
    assert(assoc_has(s, id));
    let ci = assoc_index(s, id);
    assert(0 <= ci < s.len() && s[ci].0 == id);
    if ci < i {
        assert(s[ci].0 != s[i].0);
    } else if ci > i {
        assert(s[i].0 != s[ci].0);
    }
}

/// Replacing the entry stored under `id` (at its unique index, keeping the
/// key) leaves every other key's presence and value untouched.
pub proof fn lemma_assoc_update<V>(
    pre: Seq<(ClientId, V)>,
    post: Seq<(ClientId, V)>,
    i: int,
    id: ClientId,
)
    requires
        assoc_unique(pre),
        0 <= i < pre.len(),
        pre[i].0 == id,
        post.len() == pre.len(),
        post[i].0 == id,
        forall|a: int| 0 <= a < pre.len() && a != i ==> post[a] == pre[a],
    ensures
        assoc_unique(post),
        assoc_has(post, id),
        assoc_index(post, id) == i,
        assoc_val(post, id) == post[i].1,
        forall|c: ClientId| assoc_has(post, c) <==> assoc_has(pre, c),
        forall|c: ClientId|
            c != id && assoc_has(pre, c) ==> assoc_val(post, c) == assoc_val(pre, c),
{
    assert forall|a: int, b: int| 0 <= a < b < post.len() implies (#[trigger] post[a]).0 != (
    #[trigger] post[b]).0 by {
        if a == i {
            assert(pre[i].0 != pre[b].0);
            assert(post[b] == pre[b]);
        } else if b == i {
            assert(pre[a].0 != pre[i].0);
            assert(post[a] == pre[a]);
        } else {
            assert(post[a] == pre[a]);
            assert(post[b] == pre[b]);
        }
    }
    lemma_assoc_index_pins(post, id, i);
    assert forall|c: ClientId| assoc_has(post, c) implies assoc_has(pre, c) by {
        let w = choose|a: int| 0 <= a < post.len() && (#[trigger] post[a]).0 == c;
        if w == i {
            assert(pre[i].0 == c);
        } else {
            assert(pre[w].0 == c);
        }
    }
    assert forall|c: ClientId| assoc_has(pre, c) implies assoc_has(post, c) by {
        let w = choose|a: int| 0 <= a < pre.len() && (#[trigger] pre[a]).0 == c;
        if w == i {
            assert(post[i].0 == c);
        } else {
            assert(post[w].0 == c);
        }
    }
    assert forall|c: ClientId| c != id && assoc_has(pre, c) implies assoc_val(post, c)
        == assoc_val(pre, c) by {
        let w = choose|a: int| 0 <= a < pre.len() && (#[trigger] pre[a]).0 == c;
        assert(pre[i].0 == id);
        lemma_assoc_index_pins(pre, c, w);
        assert(post[w] == pre[w]);
        lemma_assoc_index_pins(post, c, w);
    }
}

/// Appending a fresh key leaves every other key's presence and value
/// untouched.
pub proof fn lemma_assoc_push<V>(pre: Seq<(ClientId, V)>, post: Seq<(ClientId, V)>, id: ClientId)
    requires
        assoc_unique(pre),
        !assoc_has(pre, id),
        post.len() == pre.len() + 1,
        post[pre.len() as int].0 == id,
        forall|a: int| 0 <= a < pre.len() ==> post[a] == pre[a],
    ensures
        assoc_unique(post),
        assoc_has(post, id),
        assoc_index(post, id) == pre.len(),
        assoc_val(post, id) == post[pre.len() as int].1,
        forall|c: ClientId| c != id ==> (assoc_has(post, c) <==> assoc_has(pre, c)),
        forall|c: ClientId|
            c != id && assoc_has(pre, c) ==> assoc_val(post, c) == assoc_val(pre, c),
{
    let n = pre.len() as int;
    assert forall|a: int, b: int| 0 <= a < b < post.len() implies (#[trigger] post[a]).0 != (
    #[trigger] post[b]).0 by {
        if b == n {
            assert(post[a] == pre[a]);
            if pre[a].0 == id {
                assert(assoc_has(pre, id));
            }
        } else {
            assert(post[a] == pre[a]);
            assert(post[b] == pre[b]);
        }
    }
    lemma_assoc_index_pins(post, id, n);
    assert forall|c: ClientId| c != id && assoc_has(post, c) implies assoc_has(pre, c) by {
        let w = choose|a: int| 0 <= a < post.len() && (#[trigger] post[a]).0 == c;
        assert(w != n);
        assert(pre[w].0 == c);
    }
    assert forall|c: ClientId| c != id && assoc_has(pre, c) implies assoc_has(post, c) by {
        let w = choose|a: int| 0 <= a < pre.len() && (#[trigger] pre[a]).0 == c;
        assert(post[w].0 == c);
    }
    assert forall|c: ClientId| c != id && assoc_has(pre, c) implies assoc_val(post, c)
        == assoc_val(pre, c) by {
        let w = choose|a: int| 0 <= a < pre.len() && (#[trigger] pre[a]).0 == c;
        lemma_assoc_index_pins(pre, c, w);
        assert(post[w] == pre[w]);
        lemma_assoc_index_pins(post, c, w);
    }
}

/// Removing the entry stored under `id` (at its unique index) removes that
/// key and leaves every other key's presence and value untouched.
pub proof fn lemma_assoc_remove<V>(
    pre: Seq<(ClientId, V)>,
    post: Seq<(ClientId, V)>,
    i: int,
    id: ClientId,
)
    requires
        assoc_unique(pre),
        0 <= i < pre.len(),
        pre[i].0 == id,
        post == pre.remove(i),
    ensures
        assoc_unique(post),
        !assoc_has(post, id),
        forall|c: ClientId| c != id ==> (assoc_has(post, c) <==> assoc_has(pre, c)),
        forall|c: ClientId|
            c != id && assoc_has(pre, c) ==> assoc_val(post, c) == assoc_val(pre, c),
{
    assert forall|a: int| 0 <= a < post.len() implies (#[trigger] post[a]).0 != id by {
        if a < i {
            assert(post[a] == pre[a]);
        } else {
            assert(post[a] == pre[a + 1]);
        }
    }
    assert forall|a: int, b: int| 0 <= a < b < post.len() implies (#[trigger] post[a]).0 != (
    #[trigger] post[b]).0 by {
        let a0 = if a < i { a } else { a + 1 };
        let b0 = if b < i { b } else { b + 1 };
        assert(post[a] == pre[a0]);
        assert(post[b] == pre[b0]);
    }
    if assoc_has(post, id) {
        let w = choose|a: int| 0 <= a < post.len() && (#[trigger] post[a]).0 == id;
        assert(post[w].0 != id);
    }
    assert forall|c: ClientId| c != id && assoc_has(post, c) implies assoc_has(pre, c) by {
        let w = choose|a: int| 0 <= a < post.len() && (#[trigger] post[a]).0 == c;
        let w0 = if w < i { w } else { w + 1 };
        assert(pre[w0].0 == c);
    }
    assert forall|c: ClientId| c != id && assoc_has(pre, c) implies assoc_has(post, c) by {
        let w = choose|a: int| 0 <= a < pre.len() && (#[trigger] pre[a]).0 == c;
        assert(w != i);
        let w1 = if w < i { w } else { w - 1 };
        assert(post[w1] == pre[w]);
        assert(post[w1].0 == c);
    }
    assert forall|c: ClientId| c != id && assoc_has(pre, c) implies assoc_val(post, c)
        == assoc_val(pre, c) by {
        let w = choose|a: int| 0 <= a < pre.len() && (#[trigger] pre[a]).0 == c;
        lemma_assoc_index_pins(pre, c, w);
        assert(w != i);
        let w1 = if w < i { w } else { w - 1 };
        assert(post[w1] == pre[w]);
        lemma_assoc_index_pins(post, c, w1);
    }
}

} // verus!

//! What a decode step does: to the queues, to the sequences and to the order of accesses.
use crate::block_pool::BlockID;
use crate::effects::carries;
use crate::operations::{counted, holds_the_oldest, only_sequence};
use crate::order::{before, refreshed, thinned};
use crate::schedule::SchedulerView;
use crate::sequence::{SequenceId, SequenceState, TokenId};
use vstd::prelude::*;

verus! {

// ---------------------------------------------------------------------------------------------
// One token
// ---------------------------------------------------------------------------------------------

/// A generated token goes behind the tokens of its sequence. Nothing else changes.
pub proof fn law_generated_token(state: SchedulerView, k: i32)
    requires
        state.sequences.contains_key(k),
    ensures
        ({
            let post = state.generated(k);
            let s = state.sequences[k];
            let t = post.sequences[k];
            &&& t.token_ids.len() == s.token_ids.len() + 1
            &&& t.token_ids.take(s.token_ids.len() as int) == s.token_ids
            &&& t.token_ids[s.token_ids.len() as int] == TokenId(0)
            &&& t.id == s.id
            &&& t.table == s.table
            &&& t.state == s.state
            &&& post.sequences.contains_key(k)
            &&& only_sequence(state, post, k)
            &&& post.pool == state.pool
            &&& post.waiting == state.waiting
            &&& post.running == state.running
            &&& post.recency == state.recency
            &&& post.cache == state.cache
            &&& post.next_id == state.next_id
            &&& counted(state, post, 0, 0, 0)
        }),
{
    let t = state.generated(k).sequences[k];
    assert(t.token_ids.take(state.sequences[k].token_ids.len() as int)
        =~= state.sequences[k].token_ids);
}

/// Appending a token to the table of a sequence is an access to its last block, whether or not that
/// block is new: it stands last in the order of accesses, and all other blocks keep theirs. Only
/// that table and the pool change beside.
pub proof fn law_append_is_an_access(state: SchedulerView, k: i32, cow: bool)
    requires
        state.wf(),
        state.sequences.contains_key(k),
        state.block_size > 0,
        state.can_extend(k, cow),
    ensures
        ({
            let post = state.extended(k, cow);
            let s = state.sequences[k];
            let t = post.sequences[k];
            let last = t.table.blocks[t.table.blocks.len() - 1];
            &&& t.table.blocks.len() > 0
            &&& post.recency.len() > 0
            &&& post.recency[post.recency.len() - 1] == last
            &&& refreshed(state.recency, Set::empty().insert(last), post.recency)
            &&& state.recency.no_duplicates() ==> post.recency.no_duplicates()
            &&& t.table.num_tokens == s.table.num_tokens + 1
            &&& (t.table, post.pool) == s.table.appended(state.pool, cow)
            &&& t.token_ids == s.token_ids
            &&& t.id == s.id
            &&& t.state == s.state
            &&& post.sequences.contains_key(k)
            &&& only_sequence(state, post, k)
            &&& post.waiting == state.waiting
            &&& post.running == state.running
            &&& post.cache == state.cache
            &&& post.next_id == state.next_id
            &&& counted(state, post, 0, 0, 0)
        }),
{
    assert(state.fits(k, state.sequences[k]));
    state.table(k).lemma_appended(state.pool, cow);
    crate::order::lemma_touch_refreshes(
        state.recency,
        state.extended(k, cow).table(k).blocks.last(),
    );
}

/// Room for a token: if no block is needed or one is free, the token is appended and nobody is
/// preempted. Else one sequence is preempted that holds the least recently used block of one
/// reference, and the token is appended if its own sequence still runs.
pub proof fn law_making_room(state: SchedulerView, k: i32, cow: bool, post: SchedulerView)
    requires
        state.wf(),
        state.sequences.contains_key(k),
        state.block_size > 0,
        state.running.contains(SequenceId(k)),
    ensures
        ({
            let table = state.sequences[k].table;
            let n = table.blocks.len() as int;
            let starts = table.num_tokens == n * state.block_size;
            let copies = !starts && cow && state.pool.refs[table.blocks[n - 1].0 as int] > 1;
            state.makes_room(k, cow, post) <==> if (starts || copies) && state.pool.free.len() == 0 {
                exists|v: i32|
                    {
                        &&& #[trigger] holds_the_oldest(state, v)
                        &&& post == if v == k {
                            state.preempted(v)
                        } else {
                            state.preempted(v).extended(k, cow)
                        }
                    }
            } else {
                post == state.extended(k, cow)
            }
        }),
{
    assert(state.fits(k, state.sequences[k]));
    crate::effects::law_append(state.sequences[k].table, state.pool, cow);
    assert forall|v: i32| #[trigger] state.preemptible(v) <==> holds_the_oldest(state, v) by {
        crate::operations::law_the_oldest_is_preempted(state, v);
    }
    assert forall|v: i32| (#[trigger] state.preempted(v)).running.contains(SequenceId(k)) <==> v
        != k by {
        crate::lists::lemma_without(state.running, SequenceId(v));
    }
    if !state.can_extend(k, cow) {
        if state.makes_room(k, cow, post) {
            let v = choose|v: i32|
                {
                    let rest = state.preempted(v);
                    &&& #[trigger] state.preemptible(v)
                    &&& post == if rest.running.contains(SequenceId(k)) {
                        rest.extended(k, cow)
                    } else {
                        rest
                    }
                };
            assert(holds_the_oldest(state, v));
            assert(state.preempted(v).running.contains(SequenceId(k)) <==> v != k);
        }
        if exists|v: i32|
            {
                &&& #[trigger] holds_the_oldest(state, v)
                &&& post == if v == k {
                    state.preempted(v)
                } else {
                    state.preempted(v).extended(k, cow)
                }
            } {
            let v = choose|v: i32|
                {
                    &&& #[trigger] holds_the_oldest(state, v)
                    &&& post == if v == k {
                        state.preempted(v)
                    } else {
                        state.preempted(v).extended(k, cow)
                    }
                };
            assert(state.preemptible(v));
            assert(state.preempted(v).running.contains(SequenceId(k)) <==> v != k);
        }
    }
}

/// A step goes through the sequences one after the other: decoding a list and then another is
/// decoding both; a sequence that does not run when its turn comes is passed over, any other
/// generates one token and makes room for it.
pub proof fn law_step_goes_in_order(
    state: SchedulerView,
    first: Seq<SequenceId>,
    then_these: Seq<SequenceId>,
    id: SequenceId,
    cow: bool,
    post: SchedulerView,
)
    ensures
        state.decoded(Seq::empty(), cow, post) <==> post == state,
        state.decoded(seq![id], cow, post) <==> if state.running.contains(id) {
            state.generated(id.0).makes_room(id.0, cow, post)
        } else {
            post == state
        },
        state.decoded(first + then_these, cow, post) <==> exists|mid: SchedulerView| #[trigger]
            state.decoded(first, cow, mid) && mid.decoded(then_these, cow, post),
{
    let one = seq![id];
    assert(one.drop_first() =~= Seq::empty());
    reveal_with_fuel(SchedulerView::decoded, 2);
    if state.running.contains(id) && state.generated(id.0).makes_room(id.0, cow, post) {
        assert(post.decoded(one.drop_first(), cow, post));
    }
    lemma_decoded_add(state, first, then_these, cow, post);
}

proof fn lemma_decoded_add(
    state: SchedulerView,
    first: Seq<SequenceId>,
    then_these: Seq<SequenceId>,
    cow: bool,
    post: SchedulerView,
)
    ensures
        state.decoded(first + then_these, cow, post) <==> exists|mid: SchedulerView| #[trigger]
            state.decoded(first, cow, mid) && mid.decoded(then_these, cow, post),
    decreases first.len(),
{
    let all = first + then_these;
    if first.len() == 0 {
        assert(all =~= then_these);
        assert(state.decoded(first, cow, state));
    } else {
        let id = first.first();
        let rest = first.drop_first();
        assert(all.first() == id);
        assert(all.drop_first() =~= rest + then_these);
        if state.running.contains(id) {
            let here = state.generated(id.0);
            if state.decoded(all, cow, post) {
                let step = choose|step: SchedulerView|
                    {
                        &&& #[trigger] here.makes_room(id.0, cow, step)
                        &&& step.decoded(all.drop_first(), cow, post)
                    };
                lemma_decoded_add(step, rest, then_these, cow, post);
                let mid = choose|mid: SchedulerView| #[trigger]
                    step.decoded(rest, cow, mid) && mid.decoded(then_these, cow, post);
                assert(here.makes_room(id.0, cow, step));
                assert(state.decoded(first, cow, mid));
            }
            if exists|mid: SchedulerView| #[trigger]
                state.decoded(first, cow, mid) && mid.decoded(then_these, cow, post) {
                let mid = choose|mid: SchedulerView| #[trigger]
                    state.decoded(first, cow, mid) && mid.decoded(then_these, cow, post);
                let step = choose|step: SchedulerView|
                    {
                        &&& #[trigger] here.makes_room(id.0, cow, step)
                        &&& step.decoded(rest, cow, mid)
                    };
                lemma_decoded_add(step, rest, then_these, cow, post);
                assert(here.makes_room(id.0, cow, step));
                assert(step.decoded(all.drop_first(), cow, post));
            }
        } else {
            lemma_decoded_add(state, rest, then_these, cow, post);
            if state.decoded(all, cow, post) {
                let mid = choose|mid: SchedulerView| #[trigger]
                    state.decoded(rest, cow, mid) && mid.decoded(then_these, cow, post);
                assert(state.decoded(first, cow, mid));
            }
            if exists|mid: SchedulerView| #[trigger]
                state.decoded(first, cow, mid) && mid.decoded(then_these, cow, post) {
                let mid = choose|mid: SchedulerView| #[trigger]
                    state.decoded(first, cow, mid) && mid.decoded(then_these, cow, post);
                assert(state.decoded(rest, cow, mid));
            }
        }
    }
}

// ---------------------------------------------------------------------------------------------
// The queues
// ---------------------------------------------------------------------------------------------

/// A queue with `id` taken out, and one that joined behind another, as one turn of a step leaves
/// them: nobody is preempted, or one sequence is.
proof fn lemma_turn(state: SchedulerView, k: i32, cow: bool, post: SchedulerView) -> (v: Option<i32>)
    requires
        state.wf(),
        state.sequences.contains_key(k),
        state.can_make_room(k, cow),
        state.makes_room(k, cow, post),
        state.running.contains(SequenceId(k)),
    ensures
        post.wf(),
        post.sequences.dom() == state.sequences.dom(),
        post.next_id == state.next_id,
        post.block_size == state.block_size,
        post.prefix_hits == state.prefix_hits,
        post.prefix_total == state.prefix_total,
        v is None ==> state.can_extend(k, cow) && post == state.extended(k, cow),
        v matches Some(v) ==> {
            &&& !state.can_extend(k, cow)
            &&& state.preemptible(v)
            &&& state.sequences.contains_key(v)
            &&& state.table(v).blocks.len() > 0
            &&& state.pool.can_decref_all(state.table(v).blocks)
            &&& state.preempted(v).wf()
            &&& post == if v == k {
                state.preempted(v)
            } else {
                state.preempted(v).extended(k, cow)
            }
            &&& v != k ==> state.preempted(v).can_extend(k, cow)
            &&& post.waiting == state.waiting.push(SequenceId(v))
            &&& post.running == crate::lists::without(state.running, SequenceId(v))
            &&& post.blocks_evicted == state.blocks_evicted + 1
            &&& post.cache == state.cache.evicted(state.table(v).blocks)
        },
{
    crate::laws::lemma_room_is_accounted(state, k, cow, post);
    if state.can_extend(k, cow) {
        assert(post.sequences.dom() =~= state.sequences.dom());
        None
    } else {
        let v = choose|v: i32|
            {
                let rest = state.preempted(v);
                &&& #[trigger] state.preemptible(v)
                &&& post == if rest.running.contains(SequenceId(k)) {
                    rest.extended(k, cow)
                } else {
                    rest
                }
            };
        assert(state.preemptible(v));
        state.lemma_preempted(v);
        crate::lists::lemma_without(state.running, SequenceId(v));
        assert(post.sequences.dom() =~= state.sequences.dom());
        Some(v)
    }
}

/// Nobody gets lost in a step. Whoever waited still waits, in the same order. Whoever ran still
/// runs, in the same order, or was preempted and stands behind the waiting queue. There are as many
/// of these as the counter says, and at most one for each sequence that had its turn. Nothing is
/// cached that was not; if nobody was preempted, nothing is forgotten either.
pub proof fn law_step_loses_nobody(
    state: SchedulerView,
    todo: Seq<SequenceId>,
    cow: bool,
    post: SchedulerView,
)
    requires
        state.wf(),
        state.can_decode(todo, cow),
        state.decoded(todo, cow, post),
    ensures
        ({
            let n = state.waiting.len() as int;
            let added = post.waiting.len() - n;
            &&& 0 <= added <= todo.len()
            &&& counted(state, post, 0, 0, added as nat)
            &&& post.next_id == state.next_id
            &&& forall|i: int| 0 <= i < n ==> #[trigger] post.waiting[i] == state.waiting[i]
            &&& forall|id: SequenceId| #[trigger]
                state.running.contains(id) ==> post.running.contains(id) || exists|i: int|
                    n <= i < post.waiting.len() && #[trigger] post.waiting[i] == id
            &&& forall|i: int|
                n <= i < post.waiting.len() ==> !post.running.contains(#[trigger] post.waiting[i])
            &&& thinned(
                state.running,
                Set::new(|id: SequenceId| !post.running.contains(id)),
                post.running,
            )
            &&& added == 0 ==> post.running == state.running && post.cache == state.cache
            &&& forall|path: Seq<TokenId>, b: BlockID| #[trigger]
                carries(post.cache, path, b) ==> carries(state.cache, path, b)
            &&& forall|path: Seq<TokenId>| #[trigger]
                post.cache.nodes.contains_key(path) <==> state.cache.nodes.contains_key(path)
            &&& forall|j: i32| #[trigger]
                post.sequences.contains_key(j) <==> state.sequences.contains_key(j)
        }),
    decreases todo.len(),
{
    let gone = Set::new(|id: SequenceId| !post.running.contains(id));
    if todo.len() > 0 {
        let id = todo.first();
        let rest = todo.drop_first();
        if state.running.contains(id) {
            let here = state.generated(id.0);
            assert(state.sequences.contains_key(state.running[state.running.index_of(id)].0));
            let mid = choose|mid: SchedulerView|
                {
                    &&& #[trigger] here.makes_room(id.0, cow, mid)
                    &&& mid.decoded(rest, cow, post)
                };
            state.lemma_generated(id.0);
            let victim = lemma_turn(here, id.0, cow, mid);
            law_step_loses_nobody(mid, rest, cow, post);
            if let Some(v) = victim {
                let n = state.waiting.len() as int;
                crate::order::lemma_without_thins(state.running, SequenceId(v));
                let gone_v = Set::empty().insert(SequenceId(v));
                assert(mid.waiting[n] == SequenceId(v));
                assert(post.waiting[n] == SequenceId(v));
                assert forall|i: int| 0 <= i < n implies #[trigger] post.waiting[i]
                    == state.waiting[i] by {
                    assert(mid.waiting[i] == state.waiting[i]);
                }
                assert forall|x: SequenceId| #[trigger] state.running.contains(x) implies
                    post.running.contains(x) || exists|i: int|
                    n <= i < post.waiting.len() && #[trigger] post.waiting[i] == x by {
                    if x == SequenceId(v) {
                        assert(post.waiting[n] == x);
                    } else {
                        assert(mid.running.contains(x));
                    }
                }
                assert(!mid.running.contains(SequenceId(v)));
                assert forall|i: int| n <= i < post.waiting.len() implies !post.running.contains(
                    #[trigger] post.waiting[i],
                ) by {
                    if i == n {
                        if post.running.contains(SequenceId(v)) {
                            assert(mid.running.contains(SequenceId(v)));
                        }
                    }
                }
                assert forall|x: SequenceId| #[trigger] post.running.contains(x) implies
                    mid.running.contains(x) && state.running.contains(x) && !gone_v.contains(x) by {
                    assert(mid.running.contains(x));
                }
                assert forall|x: SequenceId|
                    !gone.contains(x) implies #[trigger] post.running.to_multiset().count(x)
                    == state.running.to_multiset().count(x) by {
                    assert(post.running.contains(x));
                    assert(mid.running.to_multiset().count(x)
                        == state.running.to_multiset().count(x));
                }
                assert forall|x: SequenceId, y: SequenceId|
                    !gone.contains(x) && !gone.contains(y) implies (#[trigger] before(
                    post.running,
                    x,
                    y,
                ) <==> before(state.running, x, y)) by {
                    assert(post.running.contains(x) && post.running.contains(y));
                    assert(before(mid.running, x, y) <==> before(state.running, x, y));
                }
                assert forall|path: Seq<TokenId>, b: BlockID| #[trigger]
                    carries(post.cache, path, b) implies carries(state.cache, path, b) by {
                    assert(carries(mid.cache, path, b));
                    crate::effects::law_evict(state.cache, state.table(v).blocks, path, b);
                }
            }
            assert forall|j: i32| #[trigger]
                post.sequences.contains_key(j) <==> state.sequences.contains_key(j) by {
                assert(mid.sequences.contains_key(j) <==> here.sequences.dom().contains(j));
            }
        } else {
            law_step_loses_nobody(state, rest, cow, post);
        }
    }
}

/// A sequence that does not run and holds no block sleeps through a step.
pub proof fn law_step_leaves_the_idle_alone(
    state: SchedulerView,
    todo: Seq<SequenceId>,
    cow: bool,
    post: SchedulerView,
    j: i32,
)
    requires
        state.wf(),
        state.can_decode(todo, cow),
        state.decoded(todo, cow, post),
        state.sequences.contains_key(j),
        !state.running.contains(SequenceId(j)),
        state.sequences[j].table.blocks.len() == 0,
    ensures
        post.sequences[j] == state.sequences[j],
        !post.running.contains(SequenceId(j)),
    decreases todo.len(),
{
    if todo.len() > 0 {
        let id = todo.first();
        let rest = todo.drop_first();
        if state.running.contains(id) {
            let here = state.generated(id.0);
            assert(state.sequences.contains_key(state.running[state.running.index_of(id)].0));
            let mid = choose|mid: SchedulerView|
                {
                    &&& #[trigger] here.makes_room(id.0, cow, mid)
                    &&& mid.decoded(rest, cow, post)
                };
            state.lemma_generated(id.0);
            let victim = lemma_turn(here, id.0, cow, mid);
            if let Some(v) = victim {
                crate::lists::lemma_without(state.running, SequenceId(v));
            }
            assert(mid.sequences.dom().contains(j));
            law_step_leaves_the_idle_alone(mid, rest, cow, post, j);
        } else {
            law_step_leaves_the_idle_alone(state, rest, cow, post, j);
        }
    }
}

/// A sequence that ran before a step and does not run after it waits with an empty table: it has
/// given up all its blocks.
pub proof fn law_preempted_in_a_step(
    state: SchedulerView,
    todo: Seq<SequenceId>,
    cow: bool,
    post: SchedulerView,
    j: i32,
)
    requires
        state.wf(),
        state.can_decode(todo, cow),
        state.decoded(todo, cow, post),
        state.sequences.contains_key(j),
        state.running.contains(SequenceId(j)),
        !post.running.contains(SequenceId(j)),
    ensures
        post.waiting.contains(SequenceId(j)),
        post.sequences[j].table.blocks.len() == 0,
        post.sequences[j].table.num_tokens == 0,
        post.sequences[j].state == SequenceState::Waiting,
    decreases todo.len(),
{
    law_step_loses_nobody(state, todo, cow, post);
    if todo.len() > 0 {
        let id = todo.first();
        let rest = todo.drop_first();
        if state.running.contains(id) {
            let here = state.generated(id.0);
            assert(state.sequences.contains_key(state.running[state.running.index_of(id)].0));
            let mid = choose|mid: SchedulerView|
                {
                    &&& #[trigger] here.makes_room(id.0, cow, mid)
                    &&& mid.decoded(rest, cow, post)
                };
            state.lemma_generated(id.0);
            let victim = lemma_turn(here, id.0, cow, mid);
            assert(mid.sequences.dom().contains(j));
            if mid.running.contains(SequenceId(j)) {
                law_preempted_in_a_step(mid, rest, cow, post, j);
            } else {
                let v = victim->0;
                crate::lists::lemma_without(state.running, SequenceId(v));
                assert(v == j);
                law_step_leaves_the_idle_alone(mid, rest, cow, post, j);
            }
        } else {
            law_preempted_in_a_step(state, rest, cow, post, j);
        }
    }
}

/// A step generates at most one token for each sequence, behind the tokens that it has, and none
/// for a sequence that has no turn. It keeps the ID and the block size of every sequence, and the
/// state of one that runs on.
pub proof fn law_step_generates_one_token(
    state: SchedulerView,
    todo: Seq<SequenceId>,
    cow: bool,
    post: SchedulerView,
    j: i32,
)
    requires
        state.wf(),
        todo.no_duplicates(),
        state.can_decode(todo, cow),
        state.decoded(todo, cow, post),
        state.sequences.contains_key(j),
    ensures
        ({
            let old_tokens = state.sequences[j].token_ids;
            let new_tokens = post.sequences[j].token_ids;
            &&& new_tokens == old_tokens || todo.contains(SequenceId(j)) && new_tokens
                == old_tokens.push(TokenId(0))
            &&& post.running.contains(SequenceId(j)) && todo.contains(SequenceId(j)) ==> new_tokens
                == old_tokens.push(TokenId(0))
            &&& post.sequences[j].id == state.sequences[j].id
            &&& post.sequences[j].table.block_size == state.sequences[j].table.block_size
            &&& post.running.contains(SequenceId(j)) ==> post.sequences[j].state
                == state.sequences[j].state
        }),
    decreases todo.len(),
{
    if todo.len() > 0 {
        let id = todo.first();
        let rest = todo.drop_first();
        assert(!rest.contains(id)) by {
            if rest.contains(id) {
                assert(todo[rest.index_of(id) + 1] == todo[0]);
            }
        }
        assert(rest.no_duplicates());
        assert(todo[0] == id);
        if rest.contains(SequenceId(j)) {
            assert(todo[rest.index_of(SequenceId(j)) + 1] == SequenceId(j));
        }
        if todo.contains(SequenceId(j)) && id != SequenceId(j) {
            assert(rest[todo.index_of(SequenceId(j)) - 1] == SequenceId(j));
        }
        if state.running.contains(id) {
            let here = state.generated(id.0);
            assert(state.sequences.contains_key(state.running[state.running.index_of(id)].0));
            let mid = choose|mid: SchedulerView|
                {
                    &&& #[trigger] here.makes_room(id.0, cow, mid)
                    &&& mid.decoded(rest, cow, post)
                };
            state.lemma_generated(id.0);
            assert(state.fits(j, state.sequences[j]));
            let victim = lemma_turn(here, id.0, cow, mid);
            assert(mid.sequences.dom().contains(j));
            assert(mid.fits(j, mid.sequences[j]));
            law_step_generates_one_token(mid, rest, cow, post, j);
            if post.running.contains(SequenceId(j)) {
                crate::laws::lemma_still_running(mid, rest, cow, post, j);
                if let Some(v) = victim {
                    crate::lists::lemma_without(state.running, SequenceId(v));
                }
            }
        } else {
            law_step_generates_one_token(state, rest, cow, post, j);
            if post.running.contains(SequenceId(j)) {
                crate::laws::lemma_still_running(state, rest, cow, post, j);
            }
        }
    }
}

// ---------------------------------------------------------------------------------------------
// The order of accesses
// ---------------------------------------------------------------------------------------------

/// In a step that preempts nobody, every sequence uses its last block, in the order in which they
/// run. These blocks are then the most recent ones, in that order, and every other block keeps its
/// place among the others.
pub proof fn law_step_accesses_the_last_blocks(
    state: SchedulerView,
    cow: bool,
    post: SchedulerView,
)
    requires
        state.wf(),
        state.running.no_duplicates(),
        state.can_decode(state.running, cow),
        state.decoded(state.running, cow, post),
        post.blocks_evicted == state.blocks_evicted,
    ensures
        ({
            let n = state.running.len();
            let lasts = Seq::new(
                n,
                |i: int| post.sequences[state.running[i].0].table.blocks.last(),
            );
            let used = Set::new(|b: BlockID| lasts.contains(b));
            &&& refreshed(state.recency, used, post.recency)
            &&& forall|i: int, j: int|
                #![trigger lasts[i], lasts[j]]
                0 <= i < j < n && (forall|m: int| i < m < n ==> #[trigger] lasts[m] != lasts[i])
                    ==> before(post.recency, lasts[i], lasts[j])
            &&& n > 0 ==> post.recency.len() > 0 && post.recency.last() == lasts.last()
        }),
{
    let lasts = Seq::new(
        state.running.len(),
        |i: int| post.sequences[state.running[i].0].table.blocks.last(),
    );
    lemma_step_order(state, state.running, cow, post);
    crate::order::lemma_touch_all_refreshes(state.recency, lasts);
}

proof fn lemma_step_order(
    state: SchedulerView,
    todo: Seq<SequenceId>,
    cow: bool,
    post: SchedulerView,
)
    requires
        state.wf(),
        todo.no_duplicates(),
        forall|i: int| 0 <= i < todo.len() ==> state.running.contains(#[trigger] todo[i]),
        state.can_decode(todo, cow),
        state.decoded(todo, cow, post),
        post.blocks_evicted == state.blocks_evicted,
    ensures
        post.recency == crate::lists::touch_all(
            state.recency,
            Seq::new(
                todo.len(),
                |i: int| post.sequences[todo[i].0].table.blocks.last(),
            ),
        ),
    decreases todo.len(),
{
    let lasts = Seq::new(todo.len(), |i: int| post.sequences[todo[i].0].table.blocks.last());
    if todo.len() > 0 {
        let id = todo.first();
        let rest = todo.drop_first();
        assert(todo[0] == id);
        assert(forall|i: int| 0 <= i < rest.len() ==> #[trigger] rest[i] == todo[i + 1]);
        assert(rest.no_duplicates());
        assert(!rest.contains(id)) by {
            if rest.contains(id) {
                assert(todo[rest.index_of(id) + 1] == todo[0]);
            }
        }
        let here = state.generated(id.0);
        assert(state.sequences.contains_key(state.running[state.running.index_of(id)].0));
        let mid = choose|mid: SchedulerView|
            {
                &&& #[trigger] here.makes_room(id.0, cow, mid)
                &&& mid.decoded(rest, cow, post)
            };
        state.lemma_generated(id.0);
        let victim = lemma_turn(here, id.0, cow, mid);
        law_step_loses_nobody(mid, rest, cow, post);
        assert(victim is None);
        lemma_step_order(mid, rest, cow, post);
        crate::laws::lemma_decoded_effects(mid, rest, cow, post, id.0);
        let tail = Seq::new(rest.len(), |i: int| post.sequences[rest[i].0].table.blocks.last());
        let b = mid.sequences[id.0].table.blocks.last();
        assert(lasts =~= seq![b] + tail);
        crate::lists::lemma_touch_all_add(state.recency, seq![b], tail);
        assert(crate::lists::touch_all(state.recency, seq![b]) == crate::lists::touch(
            state.recency,
            b,
        )) by {
            assert(Seq::<BlockID>::empty().push(b) =~= seq![b]);
            crate::lists::lemma_touch_all_push(state.recency, Seq::empty(), b);
        }
    } else {
        assert(lasts =~= Seq::empty());
    }
}

/// After a step, with or without preemptions, the most recent block is the last block of the last
/// sequence that had its turn and still runs.
pub proof fn law_last_to_decode_is_most_recent(
    state: SchedulerView,
    todo: Seq<SequenceId>,
    cow: bool,
    post: SchedulerView,
    i: int,
)
    requires
        state.wf(),
        state.accounted(),
        todo.no_duplicates(),
        state.can_decode(todo, cow),
        state.decoded(todo, cow, post),
        0 <= i < todo.len(),
        post.running.contains(todo[i]),
        forall|m: int| i < m < todo.len() ==> !post.running.contains(#[trigger] todo[m]),
    ensures
        post.recency.len() > 0,
        post.sequences[todo[i].0].table.blocks.len() > 0,
        post.recency.last() == post.sequences[todo[i].0].table.blocks.last(),
    decreases todo.len(),
{
    let id = todo.first();
    let rest = todo.drop_first();
    assert(todo[0] == id);
    assert(forall|m: int| 0 <= m < rest.len() ==> #[trigger] rest[m] == todo[m + 1]);
    assert(rest.no_duplicates());
    law_step_loses_nobody(state, todo, cow, post);
    assert(state.running.contains(todo[i]));
    assert(state.sequences.contains_key(state.running[state.running.index_of(todo[i])].0));
    if state.running.contains(id) {
        let here = state.generated(id.0);
        assert(state.sequences.contains_key(state.running[state.running.index_of(id)].0));
        let mid = choose|mid: SchedulerView|
            {
                &&& #[trigger] here.makes_room(id.0, cow, mid)
                &&& mid.decoded(rest, cow, post)
            };
        state.lemma_generated(id.0);
        crate::laws::lemma_generated_is_accounted(state, id.0);
        crate::laws::lemma_room_is_accounted(here, id.0, cow, mid);
        let victim = lemma_turn(here, id.0, cow, mid);
        if i == 0 {
            crate::laws::lemma_still_running(mid, rest, cow, post, id.0);
            if let Some(v) = victim {
                crate::lists::lemma_without(state.running, SequenceId(v));
                law_append_is_an_access(here.preempted(v), id.0, cow);
            } else {
                law_append_is_an_access(here, id.0, cow);
            }
            assert(!rest.contains(id)) by {
                if rest.contains(id) {
                    assert(todo[rest.index_of(id) + 1] == todo[0]);
                }
            }
            assert forall|y: SequenceId| #[trigger] rest.contains(y) implies !post.running.contains(
                y,
            ) by {
                assert(rest[rest.index_of(y)] == y);
                assert(todo[rest.index_of(y) + 1] == y);
            }
            lemma_recent_stays(mid, rest, cow, post, id.0);
        } else {
            assert(rest[i - 1] == todo[i]);
            law_last_to_decode_is_most_recent(mid, rest, cow, post, i - 1);
        }
    } else {
        assert(i != 0);
        assert(rest[i - 1] == todo[i]);
        law_last_to_decode_is_most_recent(state, rest, cow, post, i - 1);
    }
}

/// The last block of a sequence stays the most recent one while no other sequence gets a token.
proof fn lemma_recent_stays(
    state: SchedulerView,
    todo: Seq<SequenceId>,
    cow: bool,
    post: SchedulerView,
    j: i32,
)
    requires
        state.wf(),
        state.accounted(),
        todo.no_duplicates(),
        state.can_decode(todo, cow),
        state.decoded(todo, cow, post),
        state.sequences.contains_key(j),
        !todo.contains(SequenceId(j)),
        post.running.contains(SequenceId(j)),
        forall|y: SequenceId| #[trigger] todo.contains(y) ==> !post.running.contains(y),
        state.recency.len() > 0,
        state.sequences[j].table.blocks.len() > 0,
        state.recency.last() == state.sequences[j].table.blocks.last(),
    ensures
        post.recency.len() > 0,
        post.sequences[j].table.blocks.len() > 0,
        post.recency.last() == post.sequences[j].table.blocks.last(),
    decreases todo.len(),
{
    if todo.len() > 0 {
        let id = todo.first();
        let rest = todo.drop_first();
        assert(todo[0] == id);
        assert(rest.no_duplicates());
        assert forall|y: SequenceId| #[trigger] rest.contains(y) implies todo.contains(y) && y
            != id by {
            assert(todo[rest.index_of(y) + 1] == y);
            if y == id {
                assert(todo[rest.index_of(y) + 1] == todo[0]);
            }
        }
        if state.running.contains(id) {
            let here = state.generated(id.0);
            assert(state.sequences.contains_key(state.running[state.running.index_of(id)].0));
            let mid = choose|mid: SchedulerView|
                {
                    &&& #[trigger] here.makes_room(id.0, cow, mid)
                    &&& mid.decoded(rest, cow, post)
                };
            state.lemma_generated(id.0);
            crate::laws::lemma_generated_is_accounted(state, id.0);
            crate::laws::lemma_room_is_accounted(here, id.0, cow, mid);
            let victim = lemma_turn(here, id.0, cow, mid);
            if let Some(v) = victim {
                crate::lists::lemma_without(state.running, SequenceId(v));
            }
            if mid.running.contains(id) {
                assert(todo.contains(id));
                assert(!rest.contains(id));
                lemma_someone_survives(mid, rest, cow, post, id);
                let y = choose|y: SequenceId| #[trigger]
                    rest.contains(y) && post.running.contains(y);
                assert(todo.contains(y));
            }
            let blocks = here.table(id.0).blocks;
            let b = state.recency.last();
            assert(mid == here.preempted(id.0));
            assert(mid.sequences[j] == state.sequences[j]);
            assert(mid.sequences.dom().contains(j));
            assert(state.fits(j, state.sequences[j]));
            crate::laws::law_no_double_free(mid, j);
            assert(mid.table(j).blocks.contains(
                mid.table(j).blocks[mid.table(j).blocks.len() - 1],
            ));
            here.pool.lemma_freed(blocks);
            lemma_last_is_kept(here.recency, here.pool.freed(blocks));
            lemma_recent_stays(mid, rest, cow, post, j);
        } else {
            lemma_recent_stays(state, rest, cow, post, j);
        }
    }
}

proof fn lemma_last_is_kept(s: Seq<BlockID>, gone: Seq<BlockID>)
    requires
        s.len() > 0,
        !gone.contains(s.last()),
    ensures
        crate::lists::without_all(s, gone).len() > 0,
        crate::lists::without_all(s, gone).last() == s.last(),
{
    reveal(Seq::filter);
}

/// Whoever has had a turn and runs is preempted only by somebody who then runs.
proof fn lemma_someone_survives(
    state: SchedulerView,
    todo: Seq<SequenceId>,
    cow: bool,
    post: SchedulerView,
    x: SequenceId,
)
    requires
        state.wf(),
        todo.no_duplicates(),
        state.can_decode(todo, cow),
        state.decoded(todo, cow, post),
        state.running.contains(x),
        !todo.contains(x),
    ensures
        post.running.contains(x) || exists|y: SequenceId| #[trigger]
            todo.contains(y) && post.running.contains(y),
    decreases todo.len(),
{
    if todo.len() > 0 {
        let id = todo.first();
        let rest = todo.drop_first();
        assert(todo[0] == id);
        assert(todo.contains(id));
        assert(rest.no_duplicates());
        assert forall|y: SequenceId| #[trigger] rest.contains(y) implies todo.contains(y) && y
            != id by {
            assert(todo[rest.index_of(y) + 1] == y);
            if y == id {
                assert(todo[rest.index_of(y) + 1] == todo[0]);
            }
        }
        if state.running.contains(id) {
            let here = state.generated(id.0);
            assert(state.sequences.contains_key(state.running[state.running.index_of(id)].0));
            let mid = choose|mid: SchedulerView|
                {
                    &&& #[trigger] here.makes_room(id.0, cow, mid)
                    &&& mid.decoded(rest, cow, post)
                };
            state.lemma_generated(id.0);
            let victim = lemma_turn(here, id.0, cow, mid);
            if let Some(v) = victim {
                crate::lists::lemma_without(state.running, SequenceId(v));
            }
            if mid.running.contains(x) {
                lemma_someone_survives(mid, rest, cow, post, x);
            } else {
                lemma_someone_survives(mid, rest, cow, post, id);
            }
        } else {
            lemma_someone_survives(state, rest, cow, post, x);
        }
    }
}

// ---------------------------------------------------------------------------------------------
// The queues of every run
// ---------------------------------------------------------------------------------------------

/// Nobody both runs and waits, nobody waits twice, whoever runs is decoding, and whoever holds a
/// block runs.
pub open spec fn queued(state: SchedulerView) -> bool {
    &&& forall|id: SequenceId| #[trigger] state.running.contains(id) ==> !state.waiting.contains(id)
    &&& state.waiting.no_duplicates()
    &&& forall|id: SequenceId| #[trigger]
        state.running.contains(id) ==> state.sequences[id.0].state == SequenceState::Decoding
    &&& forall|k: i32| #[trigger]
        state.sequences.contains_key(k) && state.sequences[k].table.blocks.len() > 0
            ==> state.running.contains(SequenceId(k))
}

/// Every operation keeps the queues that way.
pub proof fn law_operations_keep_the_queues(state: SchedulerView, post: SchedulerView)
    requires
        state.consistent(),
        queued(state),
        state.steps_to(post),
    ensures
        queued(post),
{
    crate::laws::law_new_ids_are_fresh(state);
    if state.next_id < i32::MAX && exists|tokens: Seq<TokenId>| post == #[trigger] state.added(tokens) {
        let tokens = choose|tokens: Seq<TokenId>| post == #[trigger] state.added(tokens);
        lemma_pushed(state.waiting, SequenceId(state.next_id));
        lemma_running_is_known(state);
    } else if exists|k: i32| state.can_prefill(k) && post == #[trigger] state.prefilled(k) {
        let k = choose|k: i32| state.can_prefill(k) && post == #[trigger] state.prefilled(k);
        lemma_pushed(state.running, SequenceId(k));
        crate::lists::lemma_without(state.waiting, SequenceId(k));
    } else if exists|k: i32|
        {
            &&& state.sequences.contains_key(k)
            &&& state.pool.can_incref_all(state.table(k).blocks)
            &&& state.next_id < i32::MAX
            &&& post == #[trigger] state.forked(k)
        } {
        let k = choose|k: i32|
            {
                &&& state.sequences.contains_key(k)
                &&& state.pool.can_incref_all(state.table(k).blocks)
                &&& state.next_id < i32::MAX
                &&& post == #[trigger] state.forked(k)
            };
        lemma_pushed(state.running, SequenceId(k));
        lemma_pushed(state.joined(k).running, SequenceId(state.next_id));
        crate::lists::lemma_without(state.waiting, SequenceId(k));
        lemma_running_is_known(state);
        assert forall|id: SequenceId| #[trigger] post.running.contains(id) implies {
            &&& !post.waiting.contains(id)
            &&& post.sequences[id.0].state == SequenceState::Decoding
        } by {
            if id != SequenceId(state.next_id) {
                assert(state.joined(k).running.contains(id));
                if id != SequenceId(k) {
                    assert(state.running.contains(id));
                }
            }
        }
        assert forall|j: i32| #[trigger]
            post.sequences.contains_key(j) && post.sequences[j].table.blocks.len()
                > 0 implies post.running.contains(SequenceId(j)) by {
            if j != state.next_id {
                assert(state.sequences.contains_key(j));
                assert(state.running.contains(SequenceId(j)));
                assert(state.joined(k).running.contains(SequenceId(j)));
            }
        }
    } else if exists|k: i32|
        {
            &&& state.sequences.contains_key(k)
            &&& state.pool.can_decref_all(state.table(k).blocks)
            &&& post == #[trigger] state.finished(k)
        } {
        let k = choose|k: i32|
            {
                &&& state.sequences.contains_key(k)
                &&& state.pool.can_decref_all(state.table(k).blocks)
                &&& post == #[trigger] state.finished(k)
            };
        crate::lists::lemma_without(state.running, SequenceId(k));
        assert forall|j: i32| #[trigger]
            post.sequences.contains_key(j) && post.sequences[j].table.blocks.len()
                > 0 implies post.running.contains(SequenceId(j)) by {
            assert(j != k);
            assert(state.sequences.contains_key(j));
        }
    } else if state.can_preempt() && exists|k: i32|
        state.preemptible(k) && post == #[trigger] state.preempted(k) {
        let k = choose|k: i32| state.preemptible(k) && post == #[trigger] state.preempted(k);
        lemma_preempted_queued(state, k);
    } else {
        let cow = choose|cow: bool|
            state.can_decode(state.running, cow) && #[trigger] state.decoded(
                state.running,
                cow,
                post,
            );
        lemma_decoded_queued(state, state.running, cow, post);
    }
}

proof fn lemma_pushed(queue: Seq<SequenceId>, id: SequenceId)
    ensures
        forall|x: SequenceId| #[trigger] queue.push(id).contains(x) <==> queue.contains(x) || x == id,
        queue.no_duplicates() && !queue.contains(id) ==> queue.push(id).no_duplicates(),
{
    let p = queue.push(id);
    assert forall|x: SequenceId| #[trigger] p.contains(x) <==> queue.contains(x) || x == id by {
        if queue.contains(x) {
            assert(p[queue.index_of(x)] == x);
        }
        if x == id {
            assert(p[queue.len() as int] == x);
        }
        if p.contains(x) && x != id {
            assert(queue[p.index_of(x)] == x);
        }
    }
}

proof fn lemma_running_is_known(state: SchedulerView)
    requires
        state.wf(),
    ensures
        forall|id: SequenceId| #[trigger]
            state.running.contains(id) ==> state.sequences.contains_key(id.0) && id.0
                != state.next_id,
{
    crate::laws::law_new_ids_are_fresh(state);
    assert forall|id: SequenceId| #[trigger] state.running.contains(id) implies
        state.sequences.contains_key(id.0) && id.0 != state.next_id by {
        assert(state.sequences.contains_key(state.running[state.running.index_of(id)].0));
    }
}

proof fn lemma_preempted_queued(state: SchedulerView, v: i32)
    requires
        state.wf(),
        queued(state),
        state.preemptible(v),
    ensures
        queued(state.preempted(v)),
{
    let post = state.preempted(v);
    let b = state.victim()->0;
    assert(state.table(v).blocks[state.table(v).blocks.index_of(b)] == b);
    assert(state.running.contains(SequenceId(v)));
    crate::lists::lemma_without(state.running, SequenceId(v));
    lemma_pushed(state.waiting, SequenceId(v));
    assert forall|j: i32| #[trigger]
        post.sequences.contains_key(j) && post.sequences[j].table.blocks.len()
            > 0 implies post.running.contains(SequenceId(j)) by {
        assert(j != v);
        assert(state.sequences.contains_key(j));
    }
}

proof fn lemma_decoded_queued(
    state: SchedulerView,
    todo: Seq<SequenceId>,
    cow: bool,
    post: SchedulerView,
)
    requires
        state.wf(),
        queued(state),
        state.can_decode(todo, cow),
        state.decoded(todo, cow, post),
    ensures
        queued(post),
    decreases todo.len(),
{
    if todo.len() > 0 {
        let id = todo.first();
        let rest = todo.drop_first();
        if state.running.contains(id) {
            let here = state.generated(id.0);
            assert(state.sequences.contains_key(state.running[state.running.index_of(id)].0));
            let mid = choose|mid: SchedulerView|
                {
                    &&& #[trigger] here.makes_room(id.0, cow, mid)
                    &&& mid.decoded(rest, cow, post)
                };
            state.lemma_generated(id.0);
            assert(queued(here)) by {
                assert forall|j: i32| #[trigger]
                    here.sequences.contains_key(j) && here.sequences[j].table.blocks.len()
                        > 0 implies here.running.contains(SequenceId(j)) by {
                    assert(state.sequences.contains_key(j));
                }
            }
            let victim = lemma_turn(here, id.0, cow, mid);
            if let Some(v) = victim {
                lemma_preempted_queued(here, v);
                let left_over = here.preempted(v);
                crate::lists::lemma_without(state.running, SequenceId(v));
                if v != id.0 {
                    lemma_extended_queued(left_over, id.0, cow);
                }
            } else {
                lemma_extended_queued(here, id.0, cow);
            }
            lemma_decoded_queued(mid, rest, cow, post);
        } else {
            lemma_decoded_queued(state, rest, cow, post);
        }
    }
}

proof fn lemma_extended_queued(state: SchedulerView, k: i32, cow: bool)
    requires
        queued(state),
        state.running.contains(SequenceId(k)),
    ensures
        queued(state.extended(k, cow)),
{
    let post = state.extended(k, cow);
    assert forall|j: i32| #[trigger]
        post.sequences.contains_key(j) && post.sequences[j].table.blocks.len()
            > 0 implies post.running.contains(SequenceId(j)) by {
        if j != k {
            assert(state.sequences.contains_key(j));
        }
    }
}

/// In every state of a run nobody both runs and waits, nobody waits twice, whoever runs is
/// decoding, and whoever holds a block runs.
pub proof fn law_queues_of_a_run(
    run: Seq<SchedulerView>,
    num_blocks: nat,
    block_size: nat,
    i: int,
)
    requires
        num_blocks <= u32::MAX,
        crate::laws::is_run(run, num_blocks, block_size),
        0 <= i < run.len(),
    ensures
        queued(run[i]),
    decreases i,
{
    if i > 0 {
        law_queues_of_a_run(run, num_blocks, block_size, i - 1);
        crate::laws::law_blocks_are_never_freed_twice(run, num_blocks, block_size, i - 1);
        assert(run[i - 1].steps_to(run[i - 1 + 1]));
        law_operations_keep_the_queues(run[i - 1], run[i]);
    }
}

} // verus!

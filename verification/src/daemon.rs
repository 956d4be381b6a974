//! The daemon configuration synchronizer.
//!
//! Each proxy user owns one uniquely tagged, replaceable region of the
//! daemon configuration, delimited by begin/end marker lines carrying the
//! username.  Applying a routing block first deletes every region tagged
//! with the user and then appends a fresh block, so re-applying is the
//! identity and never accumulates duplicates; retracting deletes the
//! user's regions and leaves every other line untouched.

use vstd::prelude::*;
use crate::registry::{unique_users, RecordModel};
use crate::text::{
    free_of, join_lines, join_with, lemma_split_join, split_at_delims, split_two, str_eq, views_of,
};

verus! {

/// The line opening the region tagged with `u`.
pub open spec fn begin_marker(u: Seq<char>) -> Seq<char> {
    "# sshproxygen begin "@ + u
}

/// The line closing the region tagged with `u`.
pub open spec fn end_marker(u: Seq<char>) -> Seq<char> {
    "# sshproxygen end "@ + u
}

/// The daemon directive matching connections of the proxy user.
pub open spec fn match_line(u: Seq<char>) -> Seq<char> {
    "Match User "@ + u
}

/// The forced tunnel command: through `key` to `host` on port 22, logging
/// in as `tu`.
pub open spec fn force_line(tu: Seq<char>, host: Seq<char>, key: Seq<char>) -> Seq<char> {
    "  ForceCommand ssh -i "@ + key + " -W "@ + host + ":22 "@ + tu + "@"@ + host
}

/// The four lines of the routing block for one proxy user.
pub open spec fn block_lines(u: Seq<char>, tu: Seq<char>, host: Seq<char>, key: Seq<char>) -> Seq<
    Seq<char>,
> {
    seq![begin_marker(u), match_line(u), force_line(tu, host, key), end_marker(u)]
}

/// One pass over the lines, deleting every region tagged with `u`.  In
/// dropping mode lines are discarded until the end marker; outside it a
/// begin marker switches to dropping mode and every other line is kept.
pub open spec fn scrub_rec(ls: Seq<Seq<char>>, u: Seq<char>, dropping: bool) -> Seq<Seq<char>>
    decreases ls.len(),
{
    if ls.len() == 0 {
        Seq::empty()
    } else if dropping {
        if ls[0] == end_marker(u) {
            scrub_rec(ls.skip(1), u, false)
        } else {
            scrub_rec(ls.skip(1), u, true)
        }
    } else {
        if ls[0] == begin_marker(u) {
            scrub_rec(ls.skip(1), u, true)
        } else {
            seq![ls[0]] + scrub_rec(ls.skip(1), u, false)
        }
    }
}

/// The mode the pass is in after consuming `ls`.
pub open spec fn mode_after(ls: Seq<Seq<char>>, u: Seq<char>, dropping: bool) -> bool
    decreases ls.len(),
{
    if ls.len() == 0 {
        dropping
    } else {
        let next = if dropping {
            !(ls[0] == end_marker(u))
        } else {
            ls[0] == begin_marker(u)
        };
        mode_after(ls.skip(1), u, next)
    }
}

/// Deletion of every region tagged with `u`.
pub open spec fn spec_retract(ls: Seq<Seq<char>>, u: Seq<char>) -> Seq<Seq<char>> {
    scrub_rec(ls, u, false)
}

/// Upsert: delete every region tagged with `u`, then append a fresh block.
pub open spec fn spec_apply(
    ls: Seq<Seq<char>>,
    u: Seq<char>,
    tu: Seq<char>,
    host: Seq<char>,
    key: Seq<char>,
) -> Seq<Seq<char>> {
    spec_retract(ls, u) + block_lines(u, tu, host, key)
}

/// No line of `ls` is the begin marker of `u`.
pub open spec fn no_begin(ls: Seq<Seq<char>>, u: Seq<char>) -> bool {
    forall|i: int| 0 <= i < ls.len() ==> ls[i] != begin_marker(u)
}

/// The pass distributes over concatenation, the second part scanned in
/// the mode the first part ends in.
proof fn lemma_scrub_append(a: Seq<Seq<char>>, b: Seq<Seq<char>>, u: Seq<char>, m: bool)
    ensures
        scrub_rec(a + b, u, m) == scrub_rec(a, u, m) + scrub_rec(b, u, mode_after(a, u, m)),
    decreases a.len(),
{
    if a.len() == 0 {
        assert(a + b =~= b);
        assert(scrub_rec(a, u, m) =~= Seq::<Seq<char>>::empty());
        assert(mode_after(a, u, m) == m);
        assert(Seq::<Seq<char>>::empty() + scrub_rec(b, u, m) =~= scrub_rec(b, u, m));
    } else {
        assert((a + b)[0] == a[0]);
        assert((a + b).skip(1) =~= a.skip(1) + b);
        if m {
            if a[0] == end_marker(u) {
                lemma_scrub_append(a.skip(1), b, u, false);
            } else {
                lemma_scrub_append(a.skip(1), b, u, true);
            }
        } else {
            if a[0] == begin_marker(u) {
                lemma_scrub_append(a.skip(1), b, u, true);
            } else {
                lemma_scrub_append(a.skip(1), b, u, false);
                assert(seq![a[0]] + (scrub_rec(a.skip(1), u, false) + scrub_rec(
                    b,
                    u,
                    mode_after(a.skip(1), u, false),
                )) =~= (seq![a[0]] + scrub_rec(a.skip(1), u, false)) + scrub_rec(
                    b,
                    u,
                    mode_after(a.skip(1), u, false),
                ));
            }
        }
    }
}

/// On lines without a begin marker the pass keeps everything and stays
/// out of dropping mode.
proof fn lemma_scrub_clean(ls: Seq<Seq<char>>, u: Seq<char>)
    requires
        no_begin(ls, u),
    ensures
        scrub_rec(ls, u, false) == ls,
        mode_after(ls, u, false) == false,
    decreases ls.len(),
{
    if ls.len() > 0 {
        assert(forall|i: int| 0 <= i < ls.skip(1).len() ==> ls.skip(1)[i] == ls[i + 1]);
        lemma_scrub_clean(ls.skip(1), u);
        assert(seq![ls[0]] + ls.skip(1) =~= ls);
    }
}

/// The pass leaves no begin marker behind.
proof fn lemma_scrub_output_clean(ls: Seq<Seq<char>>, u: Seq<char>, m: bool)
    ensures
        no_begin(scrub_rec(ls, u, m), u),
    decreases ls.len(),
{
    if ls.len() > 0 {
        lemma_scrub_output_clean(ls.skip(1), u, true);
        lemma_scrub_output_clean(ls.skip(1), u, false);
        if !m && ls[0] != begin_marker(u) {
            let rest = scrub_rec(ls.skip(1), u, false);
            assert(forall|i: int|
                0 <= i < (seq![ls[0]] + rest).len() ==> (seq![ls[0]] + rest)[i] == if i == 0 {
                    ls[0]
                } else {
                    rest[i - 1]
                });
        }
    }
}

/// The block's own lines after the begin marker are consumed exactly by
/// dropping mode: the pass deletes a freshly appended block entirely.
proof fn lemma_scrub_block(u: Seq<char>, tu: Seq<char>, host: Seq<char>, key: Seq<char>)
    ensures
        scrub_rec(block_lines(u, tu, host, key), u, false) == Seq::<Seq<char>>::empty(),
        mode_after(block_lines(u, tu, host, key), u, false) == false,
        block_lines(u, tu, host, key)[0] == begin_marker(u),
        forall|j: int|
            1 <= j < 4 ==> #[trigger] block_lines(u, tu, host, key)[j] != begin_marker(u),
{
    let b = block_lines(u, tu, host, key);
    reveal_strlit("# sshproxygen begin ");
    reveal_strlit("# sshproxygen end ");
    reveal_strlit("Match User ");
    reveal_strlit("  ForceCommand ssh -i ");
    assert(begin_marker(u)[0] == '#');
    assert(match_line(u)[0] == 'M');
    assert(force_line(tu, host, key)[0] == ' ');
    assert(match_line(u) != end_marker(u));
    assert(force_line(tu, host, key) != end_marker(u));
    assert(match_line(u) != begin_marker(u));
    assert(force_line(tu, host, key) != begin_marker(u));
    assert(end_marker(u)[14] == 'e');
    assert(begin_marker(u)[14] == 'b');
    assert(end_marker(u) != begin_marker(u));
    let b1 = b.skip(1);
    let b2 = b1.skip(1);
    let b3 = b2.skip(1);
    let b4 = b3.skip(1);
    assert(b1 =~= seq![match_line(u), force_line(tu, host, key), end_marker(u)]);
    assert(b2 =~= seq![force_line(tu, host, key), end_marker(u)]);
    assert(b3 =~= seq![end_marker(u)]);
    assert(b4 =~= Seq::<Seq<char>>::empty());
    assert(scrub_rec(b, u, false) == scrub_rec(b1, u, true));
    assert(scrub_rec(b1, u, true) == scrub_rec(b2, u, true));
    assert(scrub_rec(b2, u, true) == scrub_rec(b3, u, true));
    assert(scrub_rec(b3, u, true) == scrub_rec(b4, u, false));
    assert(scrub_rec(b4, u, false) == Seq::<Seq<char>>::empty());
    assert(mode_after(b, u, false) == mode_after(b1, u, true));
    assert(mode_after(b1, u, true) == mode_after(b2, u, true));
    assert(mode_after(b2, u, true) == mode_after(b3, u, true));
    assert(mode_after(b3, u, true) == mode_after(b4, u, false));
    assert(mode_after(b4, u, false) == false);
}

/// Applying the same routing block twice is the same as applying it once:
/// the upsert deletes exactly the block it appended before.
pub proof fn lemma_apply_idempotent(
    ls: Seq<Seq<char>>,
    u: Seq<char>,
    tu: Seq<char>,
    host: Seq<char>,
    key: Seq<char>,
)
    ensures
        spec_apply(spec_apply(ls, u, tu, host, key), u, tu, host, key) == spec_apply(
            ls,
            u,
            tu,
            host,
            key,
        ),
{
    let c = spec_retract(ls, u);
    let b = block_lines(u, tu, host, key);
    lemma_scrub_output_clean(ls, u, false);
    lemma_scrub_clean(c, u);
    lemma_scrub_append(c, b, u, false);
    lemma_scrub_block(u, tu, host, key);
    assert(spec_retract(c + b, u) =~= c);
}

/// After an apply, exactly one line is the begin marker of the user: the
/// one opening the fresh block.
pub proof fn lemma_apply_single_block(
    ls: Seq<Seq<char>>,
    u: Seq<char>,
    tu: Seq<char>,
    host: Seq<char>,
    key: Seq<char>,
)
    ensures
        spec_apply(ls, u, tu, host, key)[spec_retract(ls, u).len() as int] == begin_marker(u),
        forall|j: int|
            0 <= j < spec_apply(ls, u, tu, host, key).len() && j != spec_retract(ls, u).len()
                ==> #[trigger] spec_apply(ls, u, tu, host, key)[j] != begin_marker(u),
{
    let c = spec_retract(ls, u);
    let b = block_lines(u, tu, host, key);
    let out = spec_apply(ls, u, tu, host, key);
    lemma_scrub_output_clean(ls, u, false);
    lemma_scrub_block(u, tu, host, key);
    assert(forall|j: int| 0 <= j < c.len() ==> out[j] == c[j]);
    assert(forall|j: int| c.len() <= j < out.len() ==> out[j] == b[j - c.len()]);
}

/// Retracting a user a second time changes nothing, and a retract leaves
/// no region of the user behind.
pub proof fn lemma_retract_complete(ls: Seq<Seq<char>>, u: Seq<char>)
    ensures
        no_begin(spec_retract(ls, u), u),
        spec_retract(spec_retract(ls, u), u) == spec_retract(ls, u),
{
    lemma_scrub_output_clean(ls, u, false);
    lemma_scrub_clean(spec_retract(ls, u), u);
}

// ----------------------------------------------------------------------
// Text level: the configuration travels as one string of lines.
// ----------------------------------------------------------------------

/// The lines of a configuration text.
pub open spec fn config_lines(s: Seq<char>) -> Seq<Seq<char>> {
    split_at_delims(s, '\n', '\n')
}

/// The configuration text after upserting the user's routing block.
pub open spec fn apply_text(
    s: Seq<char>,
    u: Seq<char>,
    tu: Seq<char>,
    host: Seq<char>,
    key: Seq<char>,
) -> Seq<char> {
    join_with(spec_apply(config_lines(s), u, tu, host, key), '\n')
}

/// The configuration text after deleting the user's routing block.
pub open spec fn retract_text(s: Seq<char>, u: Seq<char>) -> Seq<char> {
    join_with(spec_retract(config_lines(s), u), '\n')
}

/// The pass keeps only lines of the input, so newline-free lines stay
/// newline-free.
proof fn lemma_scrub_nl_free(ls: Seq<Seq<char>>, u: Seq<char>, m: bool)
    requires
        forall|i: int| 0 <= i < ls.len() ==> free_of(#[trigger] ls[i], '\n'),
    ensures
        forall|i: int|
            0 <= i < scrub_rec(ls, u, m).len() ==> free_of(#[trigger] scrub_rec(ls, u, m)[i], '\n'),
    decreases ls.len(),
{
    if ls.len() > 0 {
        assert(forall|i: int| 0 <= i < ls.skip(1).len() ==> ls.skip(1)[i] == ls[i + 1]);
        lemma_scrub_nl_free(ls.skip(1), u, true);
        lemma_scrub_nl_free(ls.skip(1), u, false);
        let res = scrub_rec(ls, u, m);
        assert forall|i: int| 0 <= i < res.len() implies free_of(res[i], '\n') by {
            if !m && ls[0] != begin_marker(u) {
                let rest = scrub_rec(ls.skip(1), u, false);
                if i == 0 {
                    assert(res[0] == ls[0]);
                    assert(free_of(ls[0], '\n'));
                } else {
                    assert(res[i] == rest[i - 1]);
                    assert(free_of(rest[i - 1], '\n'));
                }
            } else if m && ls[0] == end_marker(u) {
                assert(free_of(scrub_rec(ls.skip(1), u, false)[i], '\n'));
            } else if m {
                assert(free_of(scrub_rec(ls.skip(1), u, true)[i], '\n'));
            } else {
                assert(free_of(scrub_rec(ls.skip(1), u, true)[i], '\n'));
            }
        }
    }
}

/// Each line of the fresh block is newline-free when the fields are.
proof fn lemma_block_nl_free(u: Seq<char>, tu: Seq<char>, host: Seq<char>, key: Seq<char>)
    requires
        free_of(u, '\n'),
        free_of(tu, '\n'),
        free_of(host, '\n'),
        free_of(key, '\n'),
    ensures
        forall|i: int|
            0 <= i < block_lines(u, tu, host, key).len() ==> free_of(
                #[trigger] block_lines(u, tu, host, key)[i],
                '\n',
            ),
{
    reveal_strlit("# sshproxygen begin ");
    reveal_strlit("# sshproxygen end ");
    reveal_strlit("Match User ");
    reveal_strlit("  ForceCommand ssh -i ");
    reveal_strlit(" -W ");
    reveal_strlit(":22 ");
    reveal_strlit("@");
    let b = block_lines(u, tu, host, key);
    assert(free_of(b[0], '\n'));
    assert(free_of(b[1], '\n'));
    assert(free_of(b[2], '\n'));
    assert(free_of(b[3], '\n'));
}

/// Idempotence at the text level: upserting the same routing block into
/// an already upserted configuration leaves the text unchanged.
pub proof fn lemma_apply_text_idempotent(
    s: Seq<char>,
    u: Seq<char>,
    tu: Seq<char>,
    host: Seq<char>,
    key: Seq<char>,
)
    requires
        free_of(u, '\n'),
        free_of(tu, '\n'),
        free_of(host, '\n'),
        free_of(key, '\n'),
    ensures
        apply_text(apply_text(s, u, tu, host, key), u, tu, host, key) == apply_text(
            s,
            u,
            tu,
            host,
            key,
        ),
{
    let ls = config_lines(s);
    let c = spec_retract(ls, u);
    let b = block_lines(u, tu, host, key);
    let out = spec_apply(ls, u, tu, host, key);
    crate::text::lemma_split_pieces_free(s, '\n', '\n');
    lemma_scrub_nl_free(ls, u, false);
    lemma_block_nl_free(u, tu, host, key);
    assert(forall|i: int|
        0 <= i < out.len() ==> out[i] == if i < c.len() {
            c[i]
        } else {
            b[i - c.len()]
        });
    assert(forall|i: int| 0 <= i < out.len() ==> free_of(#[trigger] out[i], '\n'));
    lemma_split_join(out, '\n');
    lemma_apply_idempotent(ls, u, tu, host, key);
}

// ----------------------------------------------------------------------
// Install: upserting the block of every registry entry in turn.
// ----------------------------------------------------------------------

/// The blocks of a list of entries, in order, under one identity key.
pub open spec fn entry_blocks(es: Seq<RecordModel>, key: Seq<char>) -> Seq<Seq<char>>
    decreases es.len(),
{
    if es.len() == 0 {
        Seq::empty()
    } else {
        block_lines(es[0].proxy_user, es[0].target_user, es[0].target_host, key) + entry_blocks(
            es.skip(1),
            key,
        )
    }
}

/// The configuration lines after upserting each entry's block in turn,
/// which is what one Install run does to the daemon configuration.
pub open spec fn apply_entries(ls: Seq<Seq<char>>, es: Seq<RecordModel>, key: Seq<char>) -> Seq<
    Seq<char>,
>
    decreases es.len(),
{
    if es.len() == 0 {
        ls
    } else {
        apply_entries(
            spec_apply(ls, es[0].proxy_user, es[0].target_user, es[0].target_host, key),
            es.skip(1),
            key,
        )
    }
}

/// No line of another user's block is the begin marker of `v`.
proof fn lemma_block_no_begin_other(
    u: Seq<char>,
    tu: Seq<char>,
    host: Seq<char>,
    key: Seq<char>,
    v: Seq<char>,
)
    requires
        u != v,
    ensures
        no_begin(block_lines(u, tu, host, key), v),
{
    reveal_strlit("# sshproxygen begin ");
    reveal_strlit("# sshproxygen end ");
    reveal_strlit("Match User ");
    reveal_strlit("  ForceCommand ssh -i ");
    let b = block_lines(u, tu, host, key);
    assert(begin_marker(u) != begin_marker(v)) by {
        if begin_marker(u) == begin_marker(v) {
            let p = "# sshproxygen begin "@;
            assert((p + u).skip(p.len() as int) =~= u);
            assert((p + v).skip(p.len() as int) =~= v);
        }
    }
    assert(match_line(u)[0] == 'M');
    assert(force_line(tu, host, key)[0] == ' ');
    assert(begin_marker(v)[0] == '#');
    assert(end_marker(u)[14] == 'e');
    assert(begin_marker(v)[14] == 'b');
    assert(b[0] != begin_marker(v));
    assert(b[1] != begin_marker(v));
    assert(b[2] != begin_marker(v));
    assert(b[3] != begin_marker(v));
}

/// No line of the blocks of entries for other users is the begin marker
/// of `v`.
proof fn lemma_no_begin_entry_blocks(es: Seq<RecordModel>, key: Seq<char>, v: Seq<char>)
    requires
        forall|i: int| 0 <= i < es.len() ==> (#[trigger] es[i]).proxy_user != v,
    ensures
        no_begin(entry_blocks(es, key), v),
    decreases es.len(),
{
    if es.len() > 0 {
        let b = block_lines(es[0].proxy_user, es[0].target_user, es[0].target_host, key);
        let rest = entry_blocks(es.skip(1), key);
        lemma_block_no_begin_other(es[0].proxy_user, es[0].target_user, es[0].target_host, key, v);
        assert(forall|i: int| 0 <= i < es.skip(1).len() ==> es.skip(1)[i] == es[i + 1]);
        lemma_no_begin_entry_blocks(es.skip(1), key, v);
        assert forall|i: int| 0 <= i < entry_blocks(es, key).len() implies entry_blocks(es, key)[i]
            != begin_marker(v) by {
            if i < b.len() {
                assert(entry_blocks(es, key)[i] == b[i]);
            } else {
                assert(entry_blocks(es, key)[i] == rest[i - b.len()]);
            }
        }
    }
}

/// The blocks of a list grown at the end are the blocks grown at the end.
proof fn lemma_entry_blocks_snoc(es: Seq<RecordModel>, key: Seq<char>)
    requires
        es.len() > 0,
    ensures
        entry_blocks(es, key) == entry_blocks(es.drop_last(), key) + block_lines(
            es.last().proxy_user,
            es.last().target_user,
            es.last().target_host,
            key,
        ),
    decreases es.len(),
{
    let lb = block_lines(es.last().proxy_user, es.last().target_user, es.last().target_host, key);
    if es.len() == 1 {
        assert(es.skip(1) =~= Seq::<RecordModel>::empty());
        assert(es.drop_last() =~= Seq::<RecordModel>::empty());
        assert(entry_blocks(es.drop_last(), key) + lb =~= block_lines(
            es[0].proxy_user,
            es[0].target_user,
            es[0].target_host,
            key,
        ) + entry_blocks(es.skip(1), key));
    } else {
        let hb = block_lines(es[0].proxy_user, es[0].target_user, es[0].target_host, key);
        lemma_entry_blocks_snoc(es.skip(1), key);
        assert(es.skip(1).drop_last() =~= es.drop_last().skip(1));
        assert(es.skip(1).last() == es.last());
        assert(es.drop_last()[0] == es[0]);
        assert(es.drop_last().len() > 0);
        assert(entry_blocks(es.drop_last(), key) == hb + entry_blocks(es.drop_last().skip(1), key));
        assert(hb + (entry_blocks(es.drop_last().skip(1), key) + lb) =~= (hb + entry_blocks(
            es.drop_last().skip(1),
            key,
        )) + lb);
    }
}

/// On a configuration holding no begin marker of any entry, one Install
/// run appends exactly one block per entry, in order.
proof fn lemma_install_normal_form(base: Seq<Seq<char>>, es: Seq<RecordModel>, key: Seq<char>)
    requires
        unique_users(es),
        forall|i: int| 0 <= i < es.len() ==> no_begin(base, (#[trigger] es[i]).proxy_user),
    ensures
        apply_entries(base, es, key) == base + entry_blocks(es, key),
    decreases es.len(),
{
    if es.len() == 0 {
        assert(base + entry_blocks(es, key) =~= base);
    } else {
        let e = es[0];
        let u = e.proxy_user;
        let b = block_lines(u, e.target_user, e.target_host, key);
        lemma_scrub_clean(base, u);
        assert(spec_apply(base, u, e.target_user, e.target_host, key) == base + b);
        assert(forall|i: int| 0 <= i < es.skip(1).len() ==> es.skip(1)[i] == es[i + 1]);
        assert(unique_users(es.skip(1)));
        assert forall|i: int| 0 <= i < es.skip(1).len() implies no_begin(
            base + b,
            (#[trigger] es.skip(1)[i]).proxy_user,
        ) by {
            let v = es.skip(1)[i].proxy_user;
            assert(es[i + 1].proxy_user == v);
            assert(u != v);
            lemma_block_no_begin_other(u, e.target_user, e.target_host, key, v);
            assert(no_begin(base, v));
            assert forall|j: int| 0 <= j < (base + b).len() implies (base + b)[j]
                != begin_marker(v) by {
                if j < base.len() {
                    assert((base + b)[j] == base[j]);
                } else {
                    assert((base + b)[j] == b[j - base.len()]);
                }
            }
        }
        lemma_install_normal_form(base + b, es.skip(1), key);
        assert((base + b) + entry_blocks(es.skip(1), key) =~= base + (b + entry_blocks(
            es.skip(1),
            key,
        )));
    }
}

/// One Install pass over a configuration already carrying every entry's
/// block re-creates exactly those blocks: each upsert deletes the entry's
/// old block and appends the fresh one behind the others.
proof fn lemma_install_round(
    base: Seq<Seq<char>>,
    pending: Seq<RecordModel>,
    done: Seq<RecordModel>,
    key: Seq<char>,
)
    requires
        unique_users(done + pending),
        forall|i: int| 0 <= i < pending.len() ==> no_begin(base, (#[trigger] pending[i]).proxy_user),
    ensures
        apply_entries(base + entry_blocks(pending, key) + entry_blocks(done, key), pending, key)
            == base + entry_blocks(done + pending, key),
    decreases pending.len(),
{
    if pending.len() == 0 {
        assert(entry_blocks(pending, key) =~= Seq::<Seq<char>>::empty());
        assert(base + entry_blocks(pending, key) + entry_blocks(done, key) =~= base + entry_blocks(
            done,
            key,
        ));
        assert(done + pending =~= done);
    } else {
        let e = pending[0];
        let u = e.proxy_user;
        let b = block_lines(u, e.target_user, e.target_host, key);
        let rest = entry_blocks(pending.skip(1), key);
        let db = entry_blocks(done, key);
        let state = base + entry_blocks(pending, key) + db;
        let all = done + pending;
        assert(e == all[done.len() as int]);
        assert(forall|i: int| 0 <= i < done.len() ==> done[i] == all[i]);
        assert(forall|i: int|
            0 <= i < pending.skip(1).len() ==> pending.skip(1)[i] == all[done.len() + 1 + i]);
        assert(forall|i: int| 0 <= i < done.len() ==> (#[trigger] done[i]).proxy_user != u);
        assert(forall|i: int|
            0 <= i < pending.skip(1).len() ==> (#[trigger] pending.skip(1)[i]).proxy_user != u);
        // Scrub the whole state by u: base is clean, u's own block vanishes,
        // every other block and every foreign line passes through.
        lemma_scrub_clean(base, u);
        assert(state =~= base + (b + (rest + db)));
        lemma_scrub_append(base, b + (rest + db), u, false);
        lemma_scrub_append(b, rest + db, u, false);
        lemma_scrub_block(u, e.target_user, e.target_host, key);
        lemma_no_begin_entry_blocks(pending.skip(1), key, u);
        lemma_no_begin_entry_blocks(done, key, u);
        assert forall|j: int| 0 <= j < (rest + db).len() implies (rest + db)[j] != begin_marker(
            u,
        ) by {
            if j < rest.len() {
                assert((rest + db)[j] == rest[j]);
            } else {
                assert((rest + db)[j] == db[j - rest.len()]);
            }
        }
        lemma_scrub_clean(rest + db, u);
        assert(spec_retract(state, u) =~= base + (rest + db));
        let next = spec_apply(state, u, e.target_user, e.target_host, key);
        assert(next =~= base + rest + entry_blocks(done.push(e), key)) by {
            lemma_entry_blocks_snoc(done.push(e), key);
            assert(done.push(e).drop_last() =~= done);
            assert(done.push(e).last() == e);
            assert(entry_blocks(done.push(e), key) == db + b);
        }
        // Recurse on the remaining entries.
        assert(done.push(e) + pending.skip(1) =~= all);
        lemma_install_round(base, pending.skip(1), done.push(e), key);
        assert(apply_entries(state, pending, key) == apply_entries(next, pending.skip(1), key));
        assert(base + rest + entry_blocks(done.push(e), key) =~= base + entry_blocks(
            pending.skip(1),
            key,
        ) + entry_blocks(done.push(e), key));
    }
}

/// Idempotence of Install against the daemon configuration: starting from
/// a configuration with no begin marker of any managed entry, running the
/// whole upsert sequence twice yields exactly the lines the first run
/// yields — the same single block per user, with no duplicates.
pub proof fn lemma_install_idempotent(base: Seq<Seq<char>>, es: Seq<RecordModel>, key: Seq<char>)
    requires
        unique_users(es),
        forall|i: int| 0 <= i < es.len() ==> no_begin(base, (#[trigger] es[i]).proxy_user),
    ensures
        apply_entries(apply_entries(base, es, key), es, key) == apply_entries(base, es, key),
{
    lemma_install_normal_form(base, es, key);
    assert(Seq::<RecordModel>::empty() + es =~= es);
    lemma_install_round(base, es, Seq::<RecordModel>::empty(), key);
    assert(entry_blocks(Seq::<RecordModel>::empty(), key) =~= Seq::<Seq<char>>::empty());
    assert(base + entry_blocks(es, key) + Seq::<Seq<char>>::empty() =~= base + entry_blocks(
        es,
        key,
    ));
}

/// Builds `prefix` followed by the username.
fn marker(prefix: &str, u: &str) -> (r: String)
    ensures
        r@ == prefix@ + u@,
{
    let mut s = String::from_str(prefix);
    s.append(u);
    s
}

/// Deletes every region tagged with `u` from the lines.
fn scrub_lines(lines: &Vec<String>, u: &str) -> (out: Vec<String>)
    ensures
        views_of(out@) == scrub_rec(views_of(lines@), u@, false),
{
    let begin = marker("# sshproxygen begin ", u);
    let end = marker("# sshproxygen end ", u);
    let mut out: Vec<String> = Vec::new();
    let mut dropping = false;
    let mut i: usize = 0;
    proof {
        assert(views_of(lines@).skip(0) =~= views_of(lines@));
        assert(views_of(out@) =~= Seq::<Seq<char>>::empty());
        assert(Seq::<Seq<char>>::empty() + scrub_rec(views_of(lines@), u@, false) =~= scrub_rec(
            views_of(lines@),
            u@,
            false,
        ));
    }
    while i < lines.len()
        invariant
            i <= lines.len(),
            begin@ == begin_marker(u@),
            end@ == end_marker(u@),
            scrub_rec(views_of(lines@), u@, false) == views_of(out@) + scrub_rec(
                views_of(lines@).skip(i as int),
                u@,
                dropping,
            ),
        decreases lines.len() - i,
    {
        let ghost big_l = views_of(lines@);
        let ghost sub = big_l.skip(i as int);
        proof {
            assert(sub[0] == big_l[i as int]);
            assert(big_l[i as int] == lines@[i as int]@);
            assert(sub.skip(1) =~= big_l.skip(i as int + 1));
        }
        if dropping {
            if str_eq(lines[i].as_str(), end.as_str()) {
                dropping = false;
            }
        } else {
            if str_eq(lines[i].as_str(), begin.as_str()) {
                dropping = true;
            } else {
                let ghost prev = out@;
                out.push(lines[i].clone());
                proof {
                    assert(views_of(out@) =~= views_of(prev) + seq![sub[0]]);
                    assert((views_of(prev) + seq![sub[0]]) + scrub_rec(sub.skip(1), u@, false)
                        =~= views_of(prev) + (seq![sub[0]] + scrub_rec(sub.skip(1), u@, false)));
                }
            }
        }
        i += 1;
    }
    proof {
        assert(views_of(lines@).skip(lines@.len() as int) =~= Seq::<Seq<char>>::empty());
        assert(views_of(out@) + Seq::<Seq<char>>::empty() =~= views_of(out@));
    }
    out
}

/// Appends the four lines of the user's routing block.
fn push_block(out: &mut Vec<String>, u: &str, tu: &str, host: &str, key: &str)
    ensures
        views_of(final(out)@) == views_of(old(out)@) + block_lines(u@, tu@, host@, key@),
{
    let l0 = marker("# sshproxygen begin ", u);
    let l1 = marker("Match User ", u);
    let mut l2 = String::from_str("  ForceCommand ssh -i ");
    l2.append(key);
    l2.append(" -W ");
    l2.append(host);
    l2.append(":22 ");
    l2.append(tu);
    l2.append("@");
    l2.append(host);
    let l3 = marker("# sshproxygen end ", u);
    out.push(l0);
    out.push(l1);
    out.push(l2);
    out.push(l3);
    proof {
        assert(views_of(out@) =~= views_of(old(out)@) + block_lines(u@, tu@, host@, key@));
    }
}

/// Upserts the routing block for `proxy_user` into the configuration
/// text: its old regions are deleted, the fresh block is appended, and
/// every other line is kept in order.
pub fn apply_routing(
    cfg: &str,
    proxy_user: &str,
    target_user: &str,
    target_host: &str,
    key_path: &str,
) -> (r: String)
    ensures
        r@ == apply_text(cfg@, proxy_user@, target_user@, target_host@, key_path@),
{
    let lines = split_two(cfg, '\n', '\n');
    let mut out = scrub_lines(&lines, proxy_user);
    push_block(&mut out, proxy_user, target_user, target_host, key_path);
    join_lines(&out)
}

/// Deletes the routing block for `proxy_user` from the configuration
/// text, leaving every other line untouched.
pub fn retract_routing(cfg: &str, proxy_user: &str) -> (r: String)
    ensures
        r@ == retract_text(cfg@, proxy_user@),
{
    let lines = split_two(cfg, '\n', '\n');
    let out = scrub_lines(&lines, proxy_user);
    join_lines(&out)
}

} // verus!

//! The declarative proxy registry: the single source of truth mapping each
//! proxy user to its forwarding target, together with the identity key path
//! used by every routing block.
//!
//! The registry is persisted as a line-oriented `key value` document; the
//! codec lives here too, with a proof that saving and re-loading a
//! well-formed registry is the identity on the persisted fields.

use vstd::prelude::*;
use crate::Error;
use crate::digits::{dec_digits, push_decimal, parse_u16, spec_parse_u16, is_digit};
use crate::text::{
    escape_seq, escape_value, free_of, join_lines, join_with, lemma_split_join,
    lemma_unescape_escape, spec_starts_with, split_at_delims, split_two, starts_with_str, str_eq,
    tail_from, unescape_seq, unescape_value, views_of,
};

verus! {

/// One forwarding rule: connections authenticating as `proxy_user` are
/// tunnelled to `target_host` on `port`, logging in as `target_user`.
pub struct ProxyRecord {
    pub proxy_user: String,
    pub target_user: String,
    pub target_host: String,
    pub port: u16,
}

/// Mathematical model of a record.
pub struct RecordModel {
    pub proxy_user: Seq<char>,
    pub target_user: Seq<char>,
    pub target_host: Seq<char>,
    pub port: u16,
}

impl View for ProxyRecord {
    type V = RecordModel;

    open spec fn view(&self) -> RecordModel {
        RecordModel {
            proxy_user: self.proxy_user@,
            target_user: self.target_user@,
            target_host: self.target_host@,
            port: self.port,
        }
    }
}

impl ProxyRecord {
    pub fn clone_record(&self) -> (r: ProxyRecord)
        ensures
            r@ == self@,
    {
        ProxyRecord {
            proxy_user: self.proxy_user.clone(),
            target_user: self.target_user.clone(),
            target_host: self.target_host.clone(),
            port: self.port,
        }
    }
}

/// The sequence of models of a sequence of records.
pub open spec fn record_views(v: Seq<ProxyRecord>) -> Seq<RecordModel> {
    Seq::new(v.len(), |i: int| v[i]@)
}

/// Mathematical model of the registry.
pub struct RegistryModel {
    pub identity_key_path: Seq<char>,
    pub entries: Seq<RecordModel>,
}

/// The registry: the identity key path and the entries, keyed uniquely by
/// proxy user.
pub struct Registry {
    identity_key_path: String,
    entries: Vec<ProxyRecord>,
}

impl View for Registry {
    type V = RegistryModel;

    closed spec fn view(&self) -> RegistryModel {
        RegistryModel {
            identity_key_path: self.identity_key_path@,
            entries: record_views(self.entries@),
        }
    }
}

/// No two entries share a proxy user.
pub open spec fn unique_users(es: Seq<RecordModel>) -> bool {
    forall|i: int, j: int|
        0 <= i < j < es.len() ==> (#[trigger] es[i]).proxy_user != (#[trigger] es[j]).proxy_user
}

/// Well-formedness of the registry: entry keys are unique.
pub open spec fn registry_wf(m: RegistryModel) -> bool {
    unique_users(m.entries)
}

/// Some entry carries the proxy user `u`.
pub open spec fn contains_user(es: Seq<RecordModel>, u: Seq<char>) -> bool {
    exists|i: int| 0 <= i < es.len() && (#[trigger] es[i]).proxy_user == u
}

/// The index of the entry for `u` (unique when the registry is well-formed).
pub open spec fn user_index(es: Seq<RecordModel>, u: Seq<char>) -> int {
    choose|i: int| 0 <= i < es.len() && (#[trigger] es[i]).proxy_user == u
}

/// Removal of the entry for `u`, if any.
pub open spec fn spec_remove(es: Seq<RecordModel>, u: Seq<char>) -> Seq<RecordModel> {
    if contains_user(es, u) {
        es.remove(user_index(es, u))
    } else {
        es
    }
}

/// Insertion of `r`: any previous entry for the same user is dropped and
/// the record is appended.
pub open spec fn spec_insert(es: Seq<RecordModel>, r: RecordModel) -> Seq<RecordModel> {
    spec_remove(es, r.proxy_user).push(r)
}

/// Removing an entry keeps the remaining entries, their order, and
/// uniqueness, and with unique keys removes the user entirely.
pub proof fn lemma_remove_props(es: Seq<RecordModel>, u: Seq<char>)
    requires
        unique_users(es),
    ensures
        unique_users(spec_remove(es, u)),
        !contains_user(spec_remove(es, u), u),
        forall|v: Seq<char>|
            v != u ==> #[trigger] contains_user(spec_remove(es, u), v) == contains_user(es, v),
{
    if contains_user(es, u) {
        let i = user_index(es, u);
        let r = es.remove(i);
        assert(forall|k: int| 0 <= k < i ==> r[k] == es[k]);
        assert(forall|k: int| i <= k < r.len() ==> r[k] == es[k + 1]);
        assert(forall|v: Seq<char>|
            v != u && contains_user(es, v) ==> contains_user(r, v)) by {
            assert forall|v: Seq<char>| v != u && contains_user(es, v) implies contains_user(
                r,
                v,
            ) by {
                let k = choose|k: int| 0 <= k < es.len() && (#[trigger] es[k]).proxy_user == v;
                if k < i {
                    assert(r[k] == es[k]);
                } else {
                    assert(k > i);
                    assert(r[k - 1] == es[k]);
                }
            }
        }
    }
}

/// Inserting a record yields its user present with exactly that record,
/// keeps every other user's entry, and preserves uniqueness.
pub proof fn lemma_insert_props(es: Seq<RecordModel>, r: RecordModel)
    requires
        unique_users(es),
    ensures
        unique_users(spec_insert(es, r)),
        contains_user(spec_insert(es, r), r.proxy_user),
        spec_insert(es, r)[user_index(spec_insert(es, r), r.proxy_user)] == r,
        forall|v: Seq<char>|
            v != r.proxy_user ==> #[trigger] contains_user(spec_insert(es, r), v) == contains_user(
                es,
                v,
            ),
{
    lemma_remove_props(es, r.proxy_user);
    let base = spec_remove(es, r.proxy_user);
    let out = base.push(r);
    assert(out[out.len() - 1] == r);
    assert(unique_users(out)) by {
        assert(forall|k: int| 0 <= k < base.len() ==> out[k] == base[k]);
    }
    lemma_index_of_user(out, out.len() - 1, r.proxy_user);
    assert(forall|v: Seq<char>|
        v != r.proxy_user && contains_user(base, v) ==> contains_user(out, v)) by {
        assert forall|v: Seq<char>| v != r.proxy_user && contains_user(base, v) implies
            contains_user(out, v) by {
            let k = choose|k: int| 0 <= k < base.len() && (#[trigger] base[k]).proxy_user == v;
            assert(out[k] == base[k]);
        }
    }
    assert(forall|v: Seq<char>|
        v != r.proxy_user && contains_user(out, v) ==> contains_user(base, v)) by {
        assert forall|v: Seq<char>| v != r.proxy_user && contains_user(out, v) implies
            contains_user(base, v) by {
            let k = choose|k: int| 0 <= k < out.len() && (#[trigger] out[k]).proxy_user == v;
            assert(k < base.len());
            assert(out[k] == base[k]);
        }
    }
}

/// Two insertions for different proxy users leave both present, each with
/// its own record: a serialized pair of Add commands loses neither.
pub proof fn lemma_distinct_adds_both_present(es: Seq<RecordModel>, r1: RecordModel, r2: RecordModel)
    requires
        unique_users(es),
        r1.proxy_user != r2.proxy_user,
    ensures
        unique_users(spec_insert(spec_insert(es, r1), r2)),
        contains_user(spec_insert(spec_insert(es, r1), r2), r1.proxy_user),
        contains_user(spec_insert(spec_insert(es, r1), r2), r2.proxy_user),
        spec_insert(spec_insert(es, r1), r2)[user_index(
            spec_insert(spec_insert(es, r1), r2),
            r1.proxy_user,
        )] == r1,
        spec_insert(spec_insert(es, r1), r2)[user_index(
            spec_insert(spec_insert(es, r1), r2),
            r2.proxy_user,
        )] == r2,
{
    lemma_insert_props(es, r1);
    let mid = spec_insert(es, r1);
    lemma_insert_props(mid, r2);
    let out = spec_insert(mid, r2);
    let base = spec_remove(mid, r2.proxy_user);
    lemma_remove_props(mid, r2.proxy_user);
    lemma_remove_keeps_records(mid, r2.proxy_user, r1.proxy_user);
    let k = user_index(base, r1.proxy_user);
    assert(base[k] == mid[user_index(mid, r1.proxy_user)]);
    assert(mid[user_index(mid, r1.proxy_user)] == r1);
    assert(out[k] == base[k]);
    lemma_index_of_user(out, k, r1.proxy_user);
    assert(out[out.len() - 1] == r2);
    lemma_index_of_user(out, out.len() - 1, r2.proxy_user);
}

/// Two serialized Add invocations for different proxy users lose neither
/// entry: the first inserts `r1` and saves, the second loads that
/// document, inserts `r2`, and then holds `r2` exactly and `r1`'s
/// persisted fields unchanged.  (The advisory lock is what forces two
/// concurrent invocations into this serialized shape.)
pub proof fn lemma_serialized_adds_persist(m: RegistryModel, r1: RecordModel, r2: RecordModel)
    requires
        registry_wf(m),
        r1.proxy_user != r2.proxy_user,
    ensures
        parse_registry_text(
            registry_text(
                RegistryModel {
                    identity_key_path: m.identity_key_path,
                    entries: spec_insert(m.entries, r1),
                },
            ),
        ) == Some(
            RegistryModel {
                identity_key_path: m.identity_key_path,
                entries: default_users(spec_insert(m.entries, r1)),
            },
        ),
        ({
            let after = spec_insert(default_users(spec_insert(m.entries, r1)), r2);
            &&& contains_user(after, r1.proxy_user)
            &&& contains_user(after, r2.proxy_user)
            &&& after[user_index(after, r2.proxy_user)] == r2
            &&& after[user_index(after, r1.proxy_user)].proxy_user == r1.proxy_user
            &&& after[user_index(after, r1.proxy_user)].target_host == r1.target_host
            &&& after[user_index(after, r1.proxy_user)].port == r1.port
        }),
{
    lemma_insert_props(m.entries, r1);
    let e1 = spec_insert(m.entries, r1);
    let m1 = RegistryModel { identity_key_path: m.identity_key_path, entries: e1 };
    lemma_registry_round_trip(m1);
    let le = default_users(e1);
    assert(unique_users(le)) by {
        assert(forall|i: int|
            0 <= i < e1.len() ==> (#[trigger] le[i]).proxy_user == e1[i].proxy_user);
    }
    // The loaded list still ends with r1's entry, target user defaulted.
    let last = le.len() - 1;
    assert(e1[last] == r1);
    assert(le[last].proxy_user == r1.proxy_user);
    assert(le[last].target_host == r1.target_host);
    assert(le[last].port == r1.port);
    lemma_index_of_user(le, last, r1.proxy_user);
    // The second insertion keeps r1's entry and carries r2 exactly.
    lemma_insert_props(le, r2);
    let after = spec_insert(le, r2);
    lemma_remove_keeps_records(le, r2.proxy_user, r1.proxy_user);
    let base2 = spec_remove(le, r2.proxy_user);
    let k = user_index(base2, r1.proxy_user);
    assert(after[k] == base2[k]);
    lemma_index_of_user(after, k, r1.proxy_user);
    assert(after[after.len() - 1] == r2);
    lemma_index_of_user(after, after.len() - 1, r2.proxy_user);
}

/// After removing `u`, the record carried by any other user `v` is
/// unchanged.
pub proof fn lemma_remove_keeps_records(es: Seq<RecordModel>, u: Seq<char>, v: Seq<char>)
    requires
        unique_users(es),
        v != u,
        contains_user(es, v),
    ensures
        contains_user(spec_remove(es, u), v),
        spec_remove(es, u)[user_index(spec_remove(es, u), v)] == es[user_index(es, v)],
{
    lemma_remove_props(es, u);
    let r = spec_remove(es, u);
    let i = user_index(es, v);
    assert(0 <= i < es.len() && es[i].proxy_user == v);
    if contains_user(es, u) {
        let d = user_index(es, u);
        assert(forall|k: int| 0 <= k < d ==> r[k] == es[k]);
        assert(forall|k: int| d <= k < r.len() ==> r[k] == es[k + 1]);
        if i < d {
            assert(r[i] == es[i]);
            lemma_index_of_user(r, i, v);
        } else {
            assert(i != d);
            assert(r[i - 1] == es[i]);
            lemma_index_of_user(r, i - 1, v);
        }
    } else {
        lemma_index_of_user(r, i, v);
    }
}

/// In a unique-keyed sequence, any index carrying user `u` is the chosen
/// index for `u`.
proof fn lemma_index_of_user(es: Seq<RecordModel>, i: int, u: Seq<char>)
    requires
        unique_users(es),
        0 <= i < es.len(),
        es[i].proxy_user == u,
    ensures
        user_index(es, u) == i,
{
    assert(contains_user(es, u));
    let j = user_index(es, u);
    if i < j {
        assert(es[i].proxy_user != es[j].proxy_user);
    } else if j < i {
        assert(es[j].proxy_user != es[i].proxy_user);
    }
}

impl Registry {
    /// Whether some entry carries the proxy user `u`.
    pub fn has_user(&self, u: &str) -> (r: bool)
        ensures
            r == contains_user(self@.entries, u@),
    {
        let mut i: usize = 0;
        while i < self.entries.len()
            invariant
                i <= self.entries.len(),
                forall|k: int| 0 <= k < i ==> record_views(self.entries@)[k].proxy_user != u@,
            decreases self.entries.len() - i,
        {
            if str_eq(self.entries[i].proxy_user.as_str(), u) {
                proof {
                    assert(record_views(self.entries@)[i as int].proxy_user == u@);
                }
                return true;
            }
            i += 1;
        }
        false
    }

    /// The number of entries.
    pub fn entry_count(&self) -> (n: usize)
        ensures
            n == self@.entries.len(),
    {
        self.entries.len()
    }

    /// The entry at position `i`.
    pub fn entry_at(&self, i: usize) -> (r: &ProxyRecord)
        requires
            i < self@.entries.len(),
        ensures
            r@ == self@.entries[i as int],
    {
        &self.entries[i]
    }

    /// The identity key path used by every routing block.
    pub fn identity_key_path(&self) -> (r: &String)
        ensures
            r@ == self@.identity_key_path,
    {
        &self.identity_key_path
    }

    /// Overrides the identity key path for this invocation.
    pub fn set_identity_key_path(&mut self, p: String)
        ensures
            final(self)@.identity_key_path == p@,
            final(self)@.entries == old(self)@.entries,
    {
        self.identity_key_path = p;
    }

    /// Inserts a record, dropping any previous entry for the same user.
    pub fn insert(&mut self, rec: ProxyRecord)
        requires
            registry_wf(old(self)@),
        ensures
            final(self)@.entries == spec_insert(old(self)@.entries, rec@),
            final(self)@.identity_key_path == old(self)@.identity_key_path,
            registry_wf(final(self)@),
            contains_user(final(self)@.entries, rec@.proxy_user),
    {
        let ghost old_es = self@.entries;
        let existed = self.remove_user(&rec.proxy_user.as_str());
        proof {
            lemma_insert_props(old_es, rec@);
        }
        let ghost mid = self.entries@;
        self.entries.push(rec);
        proof {
            assert(record_views(self.entries@) =~= record_views(mid).push(
                self.entries@[mid.len() as int]@,
            ));
        }
    }

    /// Removes the entry for `u`, reporting whether one existed.
    pub fn remove_user(&mut self, u: &str) -> (existed: bool)
        requires
            registry_wf(old(self)@),
        ensures
            final(self)@.entries == spec_remove(old(self)@.entries, u@),
            final(self)@.identity_key_path == old(self)@.identity_key_path,
            registry_wf(final(self)@),
            existed == contains_user(old(self)@.entries, u@),
    {
        proof {
            lemma_remove_props(self@.entries, u@);
        }
        let mut i: usize = 0;
        while i < self.entries.len()
            invariant
                i <= self.entries.len(),
                self.entries@ == old(self).entries@,
                self.identity_key_path@ == old(self).identity_key_path@,
                registry_wf(old(self)@),
                forall|k: int| 0 <= k < i ==> record_views(self.entries@)[k].proxy_user != u@,
            decreases self.entries.len() - i,
        {
            if str_eq(self.entries[i].proxy_user.as_str(), u) {
                let ghost es = record_views(self.entries@);
                proof {
                    assert(es[i as int].proxy_user == u@);
                    assert(contains_user(es, u@));
                    lemma_index_of_user(es, i as int, u@);
                }
                self.entries.remove(i);
                proof {
                    assert(record_views(self.entries@) =~= es.remove(i as int));
                }
                return true;
            }
            i += 1;
        }
        proof {
            assert(!contains_user(record_views(self.entries@), u@));
        }
        false
    }
}

// ----------------------------------------------------------------------
// The persisted document.
//
// The registry is stored as one `identity_key_path <path>` line followed
// by three lines per entry: `proxy <name>`, `target_host <host>`,
// `port <digits>`.  The target user is not part of the persisted schema;
// loading fills it with the fixed default.  String values are escaped
// (`\` as `\\`, newline as `\n`) so that every value fits on one line and
// the codec round-trips every registry, whatever its strings hold.
// ----------------------------------------------------------------------

pub open spec fn ikp_prefix() -> Seq<char> {
    "identity_key_path "@
}

pub open spec fn proxy_prefix() -> Seq<char> {
    "proxy "@
}

pub open spec fn host_prefix() -> Seq<char> {
    "target_host "@
}

pub open spec fn port_prefix() -> Seq<char> {
    "port "@
}

/// The target user assumed for entries loaded from the store.
pub open spec fn default_target_user() -> Seq<char> {
    "proxyssh"@
}

/// The three lines of one persisted entry, values escaped.
pub open spec fn render_record(r: RecordModel) -> Seq<Seq<char>> {
    seq![
        proxy_prefix() + escape_seq(r.proxy_user),
        host_prefix() + escape_seq(r.target_host),
        port_prefix() + dec_digits(r.port as nat),
    ]
}

pub open spec fn render_records(es: Seq<RecordModel>) -> Seq<Seq<char>>
    decreases es.len(),
{
    if es.len() == 0 {
        Seq::empty()
    } else {
        render_record(es[0]) + render_records(es.skip(1))
    }
}

pub open spec fn render_lines(m: RegistryModel) -> Seq<Seq<char>> {
    seq![ikp_prefix() + escape_seq(m.identity_key_path)] + render_records(m.entries)
}

/// The full persisted document of a registry.
pub open spec fn registry_text(m: RegistryModel) -> Seq<char> {
    join_with(render_lines(m), '\n')
}

/// Entries with the target user replaced by the fixed default, as loading
/// leaves them.
pub open spec fn default_users(es: Seq<RecordModel>) -> Seq<RecordModel> {
    Seq::new(
        es.len(),
        |i: int|
            RecordModel {
                proxy_user: es[i].proxy_user,
                target_user: default_target_user(),
                target_host: es[i].target_host,
                port: es[i].port,
            },
    )
}

pub open spec fn parse_records(ls: Seq<Seq<char>>) -> Option<Seq<RecordModel>>
    decreases ls.len(),
{
    if ls.len() == 0 {
        Some(Seq::empty())
    } else if ls.len() < 3 {
        None
    } else if spec_starts_with(ls[0], proxy_prefix()) && spec_starts_with(ls[1], host_prefix())
        && spec_starts_with(ls[2], port_prefix()) {
        match spec_parse_u16(ls[2].skip(port_prefix().len() as int)) {
            Some(p) => match parse_records(ls.skip(3)) {
                Some(rest) => Some(
                    seq![
                        RecordModel {
                            proxy_user: unescape_seq(ls[0].skip(proxy_prefix().len() as int)),
                            target_user: default_target_user(),
                            target_host: unescape_seq(ls[1].skip(host_prefix().len() as int)),
                            port: p,
                        },
                    ] + rest,
                ),
                None => None,
            },
            None => None,
        }
    } else {
        None
    }
}

pub open spec fn parse_lines(ls: Seq<Seq<char>>) -> Option<RegistryModel> {
    if ls.len() >= 1 && spec_starts_with(ls[0], ikp_prefix()) {
        match parse_records(ls.skip(1)) {
            Some(es) => if unique_users(es) {
                Some(
                    RegistryModel {
                        identity_key_path: unescape_seq(ls[0].skip(ikp_prefix().len() as int)),
                        entries: es,
                    },
                )
            } else {
                None
            },
            None => None,
        }
    } else {
        None
    }
}

/// What a document means: the registry parsed from its lines, if any.
pub open spec fn parse_registry_text(s: Seq<char>) -> Option<RegistryModel> {
    parse_lines(split_at_delims(s, '\n', '\n'))
}

/// A prefixed line starts with its prefix and carries its value after it.
proof fn lemma_prefix_value(p: Seq<char>, x: Seq<char>)
    ensures
        spec_starts_with(p + x, p),
        (p + x).skip(p.len() as int) == x,
{
    assert((p + x).subrange(0, p.len() as int) =~= p);
    assert((p + x).skip(p.len() as int) =~= x);
}

proof fn lemma_prefixes_nl_free()
    ensures
        free_of(ikp_prefix(), '\n'),
        free_of(proxy_prefix(), '\n'),
        free_of(host_prefix(), '\n'),
        free_of(port_prefix(), '\n'),
{
    reveal_strlit("identity_key_path ");
    reveal_strlit("proxy ");
    reveal_strlit("target_host ");
    reveal_strlit("port ");
}

/// Parsing the rendered entry lines yields the entries, with the target
/// user defaulted.
proof fn lemma_parse_render_records(es: Seq<RecordModel>)
    ensures
        parse_records(render_records(es)) == Some(default_users(es)),
    decreases es.len(),
{
    if es.len() == 0 {
        assert(default_users(es) =~= Seq::<RecordModel>::empty());
    } else {
        let ls = render_records(es);
        let r0 = es[0];
        let rest_ls = render_records(es.skip(1));
        lemma_prefix_value(proxy_prefix(), escape_seq(r0.proxy_user));
        lemma_prefix_value(host_prefix(), escape_seq(r0.target_host));
        lemma_prefix_value(port_prefix(), dec_digits(r0.port as nat));
        lemma_unescape_escape(r0.proxy_user);
        lemma_unescape_escape(r0.target_host);
        crate::digits::lemma_u16_round_trip(r0.port);
        assert(ls[0] == proxy_prefix() + escape_seq(r0.proxy_user));
        assert(ls[1] == host_prefix() + escape_seq(r0.target_host));
        assert(ls[2] == port_prefix() + dec_digits(r0.port as nat));
        assert(ls.skip(3) =~= rest_ls);
        lemma_parse_render_records(es.skip(1));
        let head = RecordModel {
            proxy_user: r0.proxy_user,
            target_user: default_target_user(),
            target_host: r0.target_host,
            port: r0.port,
        };
        assert(parse_records(ls) == Some(seq![head] + default_users(es.skip(1))));
        assert(seq![head] + default_users(es.skip(1)) =~= default_users(es));
    }
}

/// Parsing the rendered lines of a well-formed registry yields the
/// registry with defaulted target users.
proof fn lemma_parse_render_lines(m: RegistryModel)
    requires
        unique_users(m.entries),
    ensures
        parse_lines(render_lines(m)) == Some(
            RegistryModel {
                identity_key_path: m.identity_key_path,
                entries: default_users(m.entries),
            },
        ),
{
    let ls = render_lines(m);
    lemma_prefix_value(ikp_prefix(), escape_seq(m.identity_key_path));
    lemma_unescape_escape(m.identity_key_path);
    assert(ls[0] == ikp_prefix() + escape_seq(m.identity_key_path));
    assert(ls.skip(1) =~= render_records(m.entries));
    lemma_parse_render_records(m.entries);
    assert(unique_users(default_users(m.entries))) by {
        assert(forall|i: int|
            0 <= i < m.entries.len() ==> (#[trigger] default_users(m.entries)[i]).proxy_user
                == m.entries[i].proxy_user);
    }
}

/// Every rendered entry line is newline-free — escaping makes this hold
/// for every registry.
proof fn lemma_render_records_nl_free(es: Seq<RecordModel>)
    ensures
        forall|i: int| 0 <= i < render_records(es).len() ==> free_of(
            #[trigger] render_records(es)[i],
            '\n',
        ),
    decreases es.len(),
{
    lemma_prefixes_nl_free();
    if es.len() > 0 {
        let ls = render_records(es);
        let r0 = es[0];
        lemma_unescape_escape(r0.proxy_user);
        lemma_unescape_escape(r0.target_host);
        lemma_render_records_nl_free(es.skip(1));
        crate::digits::lemma_dec_digits_val(r0.port as nat);
        assert(free_of(dec_digits(r0.port as nat), '\n')) by {
            assert(forall|k: int|
                0 <= k < dec_digits(r0.port as nat).len() ==> is_digit(
                    #[trigger] dec_digits(r0.port as nat)[k],
                ));
        }
        assert(free_of(ls[0], '\n'));
        assert(free_of(ls[1], '\n'));
        assert(free_of(ls[2], '\n'));
        assert(forall|i: int|
            3 <= i < ls.len() ==> ls[i] == render_records(es.skip(1))[i - 3]);
    }
}

/// The persisted document does not depend on the target users.
proof fn lemma_render_ignores_target_user(es: Seq<RecordModel>)
    ensures
        render_records(default_users(es)) == render_records(es),
    decreases es.len(),
{
    if es.len() == 0 {
        assert(default_users(es) =~= Seq::<RecordModel>::empty());
    } else {
        lemma_render_ignores_target_user(es.skip(1));
        assert(default_users(es).skip(1) =~= default_users(es.skip(1)));
        assert(render_record(default_users(es)[0]) == render_record(es[0]));
    }
}

/// Saving any well-formed registry and loading the document back yields
/// the registry again, with each entry's target user replaced by the
/// fixed default — so saving the re-loaded registry writes the identical
/// document; a registry already carrying only the default target user
/// round-trips exactly.  Escaping makes this hold with no restriction on
/// the registry's strings.
pub proof fn lemma_registry_round_trip(m: RegistryModel)
    requires
        registry_wf(m),
    ensures
        parse_registry_text(registry_text(m)) == Some(
            RegistryModel {
                identity_key_path: m.identity_key_path,
                entries: default_users(m.entries),
            },
        ),
        registry_text(
            RegistryModel {
                identity_key_path: m.identity_key_path,
                entries: default_users(m.entries),
            },
        ) == registry_text(m),
        (forall|i: int|
            0 <= i < m.entries.len() ==> (#[trigger] m.entries[i]).target_user
                == default_target_user()) ==> parse_registry_text(registry_text(m)) == Some(m),
{
    lemma_render_ignores_target_user(m.entries);
    let ls = render_lines(m);
    lemma_prefixes_nl_free();
    lemma_render_records_nl_free(m.entries);
    lemma_unescape_escape(m.identity_key_path);
    assert(free_of(ls[0], '\n'));
    assert(forall|i: int|
        1 <= i < ls.len() ==> ls[i] == render_records(m.entries)[i - 1]);
    assert(forall|i: int| 0 <= i < ls.len() ==> free_of(#[trigger] ls[i], '\n'));
    lemma_split_join(ls, '\n');
    lemma_parse_render_lines(m);
    if forall|i: int|
        0 <= i < m.entries.len() ==> (#[trigger] m.entries[i]).target_user
            == default_target_user() {
        assert(default_users(m.entries) =~= m.entries);
    }
}

/// The rendered entry lines grow by one record at the end.
proof fn lemma_render_records_snoc(es: Seq<RecordModel>)
    requires
        es.len() > 0,
    ensures
        render_records(es) == render_records(es.drop_last()) + render_record(es.last()),
    decreases es.len(),
{
    if es.len() == 1 {
        assert(es.skip(1) =~= Seq::<RecordModel>::empty());
        assert(es.drop_last() =~= Seq::<RecordModel>::empty());
        assert(render_records(es.drop_last()) + render_record(es.last()) =~= render_record(es[0])
            + render_records(es.skip(1)));
    } else {
        lemma_render_records_snoc(es.skip(1));
        assert(es.skip(1).drop_last() =~= es.drop_last().skip(1));
        assert(es.skip(1).last() == es.last());
        assert(es.drop_last()[0] == es[0]);
        assert(es.drop_last().len() > 0);
        assert(render_records(es.drop_last()) == render_record(es[0]) + render_records(
            es.drop_last().skip(1),
        ));
        assert(render_record(es[0]) + (render_records(es.drop_last().skip(1)) + render_record(
            es.last(),
        )) =~= (render_record(es[0]) + render_records(es.drop_last().skip(1))) + render_record(
            es.last(),
        ));
    }
}

/// Builds a `prefix value` line.
fn prefixed(prefix: &str, value: &str) -> (r: String)
    ensures
        r@ == prefix@ + value@,
{
    let mut s = String::from_str(prefix);
    s.append(value);
    s
}

impl Registry {
    /// Serializes the registry into its persisted document.
    pub fn to_text(&self) -> (r: String)
        ensures
            r@ == registry_text(self@),
    {
        let mut lines: Vec<String> = Vec::new();
        lines.push(
            prefixed("identity_key_path ", escape_value(self.identity_key_path.as_str()).as_str()),
        );
        proof {
            assert(self@.entries.take(0) =~= Seq::<RecordModel>::empty());
            assert(views_of(lines@) =~= seq![ikp_prefix() + escape_seq(self@.identity_key_path)]
                + render_records(self@.entries.take(0)));
        }
        let mut i: usize = 0;
        while i < self.entries.len()
            invariant
                i <= self.entries.len(),
                views_of(lines@) == seq![ikp_prefix() + escape_seq(self@.identity_key_path)] + render_records(
                    self@.entries.take(i as int),
                ),
            decreases self.entries.len() - i,
        {
            let rec = &self.entries[i];
            let mut port_line = String::from_str("port ");
            push_decimal(&mut port_line, rec.port);
            let ghost before = lines@;
            lines.push(prefixed("proxy ", escape_value(rec.proxy_user.as_str()).as_str()));
            lines.push(prefixed("target_host ", escape_value(rec.target_host.as_str()).as_str()));
            lines.push(port_line);
            proof {
                let es = self@.entries;
                assert(es.take(i as int + 1).drop_last() =~= es.take(i as int));
                assert(es.take(i as int + 1).last() == es[i as int]);
                lemma_render_records_snoc(es.take(i as int + 1));
                assert(views_of(lines@) =~= (seq![ikp_prefix() + escape_seq(self@.identity_key_path)]
                    + render_records(es.take(i as int))) + render_record(es[i as int]));
                assert((seq![ikp_prefix() + escape_seq(self@.identity_key_path)] + render_records(
                    es.take(i as int),
                )) + render_record(es[i as int]) =~= seq![ikp_prefix() + escape_seq(self@.identity_key_path)]
                    + (render_records(es.take(i as int)) + render_record(es[i as int])));
            }
            i += 1;
        }
        proof {
            assert(self@.entries.take(self@.entries.len() as int) =~= self@.entries);
        }
        join_lines(&lines)
    }

    /// Parses a persisted document.  Succeeds exactly on documents in the
    /// schema — an `identity_key_path` line followed by whole `proxy` /
    /// `target_host` / `port` line triples with in-range ports and no
    /// duplicate proxy user — and returns the registry they denote.
    pub fn from_text(s: &str) -> (r: Result<Registry, Error>)
        ensures
            match r {
                Ok(reg) => parse_registry_text(s@) == Some(reg@) && registry_wf(reg@),
                Err(Error::StoreCorrupt) => parse_registry_text(s@) is None,
                Err(_) => false,
            },
    {
        let lines = split_two(s, '\n', '\n');
        let ghost big_l = views_of(lines@);
        if lines.len() == 0 {
            return Err(Error::StoreCorrupt);
        }
        if !starts_with_str(lines[0].as_str(), "identity_key_path ") {
            return Err(Error::StoreCorrupt);
        }
        let ikp = unescape_value(
            tail_from(lines[0].as_str(), "identity_key_path ".unicode_len()).as_str(),
        );
        let ghost rec_l = big_l.skip(1);
        let mut recs: Vec<ProxyRecord> = Vec::new();
        let mut i: usize = 1;
        proof {
            assert(rec_l.skip(0) =~= rec_l);
            assert(record_views(recs@) =~= Seq::<RecordModel>::empty());
            assert(forall|rest: Seq<RecordModel>|
                Seq::<RecordModel>::empty() + rest =~= rest);
        }
        while lines.len() - i >= 3
            invariant
                1 <= i <= lines.len(),
                big_l == views_of(lines@),
                big_l == split_at_delims(s@, '\n', '\n'),
                rec_l == big_l.skip(1),
                lines@.len() == big_l.len(),
                parse_records(rec_l) == (match parse_records(rec_l.skip(i - 1)) {
                    Some(rest) => Some(record_views(recs@) + rest),
                    None => None::<Seq<RecordModel>>,
                }),
            decreases lines.len() - i,
        {
            let ghost sub = rec_l.skip(i - 1);
            proof {
                assert(sub.len() == lines@.len() - i);
                assert(sub[0] == big_l[i as int]);
                assert(sub[1] == big_l[i as int + 1]);
                assert(sub[2] == big_l[i as int + 2]);
                assert(big_l[i as int] == lines@[i as int]@);
                assert(big_l[i as int + 1] == lines@[i as int + 1]@);
                assert(big_l[i as int + 2] == lines@[i as int + 2]@);
            }
            if !starts_with_str(lines[i].as_str(), "proxy ") {
                return Err(Error::StoreCorrupt);
            }
            if !starts_with_str(lines[i + 1].as_str(), "target_host ") {
                proof {
                    assert(!spec_starts_with(sub[1], host_prefix()));
                    assert(parse_records(sub) is None);
                }
                return Err(Error::StoreCorrupt);
            }
            if !starts_with_str(lines[i + 2].as_str(), "port ") {
                proof {
                    assert(!spec_starts_with(sub[2], port_prefix()));
                    assert(parse_records(sub) is None);
                }
                return Err(Error::StoreCorrupt);
            }
            let user = unescape_value(tail_from(lines[i].as_str(), "proxy ".unicode_len()).as_str());
            let host = unescape_value(
                tail_from(lines[i + 1].as_str(), "target_host ".unicode_len()).as_str(),
            );
            let port_text = tail_from(lines[i + 2].as_str(), "port ".unicode_len());
            let port = match parse_u16(port_text.as_str()) {
                Some(p) => p,
                None => {
                    return Err(Error::StoreCorrupt);
                },
            };
            let rec = ProxyRecord {
                proxy_user: user,
                target_user: String::from_str("proxyssh"),
                target_host: host,
                port,
            };
            let ghost old_recs = recs@;
            recs.push(rec);
            proof {
                assert(sub.skip(3) =~= rec_l.skip(i - 1 + 3));
                assert(record_views(recs@) =~= record_views(old_recs).push(
                    recs@[old_recs.len() as int]@,
                ));
                if parse_records(sub.skip(3)) is Some {
                    let rest = parse_records(sub.skip(3))->Some_0;
                    assert(parse_records(sub) == Some(
                        seq![recs@[old_recs.len() as int]@] + rest,
                    ));
                    assert(record_views(old_recs) + (seq![recs@[old_recs.len() as int]@] + rest)
                        =~= record_views(recs@) + rest);
                }
            }
            i += 3;
        }
        if i != lines.len() {
            proof {
                assert(rec_l.skip(i - 1).len() == lines@.len() - i);
                assert(parse_records(rec_l.skip(i - 1)) is None);
            }
            return Err(Error::StoreCorrupt);
        }
        proof {
            assert(rec_l.skip(i - 1) =~= Seq::<Seq<char>>::empty());
            assert(parse_records(rec_l.skip(i - 1)) == Some(Seq::<RecordModel>::empty()));
            assert(record_views(recs@) + Seq::<RecordModel>::empty() =~= record_views(recs@));
        }
        if !check_unique(&recs) {
            return Err(Error::StoreCorrupt);
        }
        let reg = Registry { identity_key_path: ikp, entries: recs };
        proof {
            assert(parse_lines(big_l) == Some(reg@));
        }
        Ok(reg)
    }

    /// Decodes the registry file's content; where no file exists (`None`)
    /// the result is the default registry with no entries and the fixed
    /// default identity key path.
    pub fn load(content: Option<&str>) -> (r: Result<Registry, Error>)
        ensures
            match r {
                Ok(reg) => registry_wf(reg@) && match content {
                    Some(s) => parse_registry_text(s@) == Some(reg@),
                    None => reg@.identity_key_path == "/etc/sshproxygen/id_rsa"@ && reg@.entries
                        == Seq::<RecordModel>::empty(),
                },
                Err(Error::StoreCorrupt) => content matches Some(s) && parse_registry_text(
                    s@,
                ) is None,
                Err(_) => false,
            },
    {
        match content {
            Some(s) => Registry::from_text(s),
            None => Ok(Registry::default()),
        }
    }
}

fn check_unique(recs: &Vec<ProxyRecord>) -> (b: bool)
    ensures
        b == unique_users(record_views(recs@)),
{
    let ghost es = record_views(recs@);
    let mut i: usize = 0;
    while i < recs.len()
        invariant
            i <= recs.len(),
            es == record_views(recs@),
            forall|k: int, l: int|
                0 <= k < l < es.len() && k < i ==> (#[trigger] es[k]).proxy_user != (
                #[trigger] es[l]).proxy_user,
        decreases recs.len() - i,
    {
        let mut j: usize = i + 1;
        while j < recs.len()
            invariant
                i < j <= recs.len(),
                i < recs.len(),
                es == record_views(recs@),
                forall|l: int| i < l < j ==> es[i as int].proxy_user != (#[trigger] es[l]).proxy_user,
            decreases recs.len() - j,
        {
            if str_eq(recs[i].proxy_user.as_str(), recs[j].proxy_user.as_str()) {
                proof {
                    assert(es[i as int].proxy_user == es[j as int].proxy_user);
                }
                return false;
            }
            j += 1;
        }
        i += 1;
    }
    true
}

impl Default for Registry {
    /// The registry used when no file exists yet: no entries, and the
    /// fixed default identity key path.
    fn default() -> (r: Registry)
        ensures
            r@.identity_key_path == "/etc/sshproxygen/id_rsa"@,
            r@.entries == Seq::<RecordModel>::empty(),
            registry_wf(r@),
    {
        let r = Registry {
            identity_key_path: String::from_str("/etc/sshproxygen/id_rsa"),
            entries: Vec::new(),
        };
        proof {
            assert(record_views(r.entries@) =~= Seq::<RecordModel>::empty());
        }
        r
    }
}

} // verus!

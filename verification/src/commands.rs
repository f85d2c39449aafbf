//! What the commands decide: which contributions an install makes and an
//! uninstall takes back, what an update fetches and prunes, and how the
//! configuration of an env is edited.

use crate::activate::Shell;
use crate::env::skeleton;
use crate::installed::{InstalledFiles, RecordModel};
use crate::manifest::{
    copy_texts, packages_model, ActivationBlock, BlockModel, Manifest, ManifestModel, PackageModel,
    PackageRef, RestartPolicy, Tool, ToolModel, MANIFEST_FILE,
};
use crate::paths::{opt_view, Os};
use crate::registry::{Registry, RegistryError};
use crate::relocate::{
    apply_with_prev, relocates, EnvTree, RelocateError, RelocateIndex, PREFIX_SENTINEL,
};
use crate::strmap::{
    lemma_map_of_at, lemma_map_of_keys, listed, lists, map_of, rising, same_texts, Dup, StrMap,
};
use crate::text::{
    among, before, chars_of, cut, decimal, digits, lemma_text_lt_irreflexive, lemma_text_lt_total,
    lemma_text_lt_transitive, occurs_at, opt_text, same, split_once, string_of, text_lt, texts,
};
use vstd::prelude::*;

verus! {

// ---- lists ----

/// The items of `s` that `keep` holds of, in order.
pub open spec fn kept<T>(s: Seq<T>, keep: spec_fn(T) -> bool) -> Seq<T>
    decreases s.len(),
{
    if s.len() == 0 {
        s
    } else if keep(s.last()) {
        kept(s.drop_last(), keep).push(s.last())
    } else {
        kept(s.drop_last(), keep)
    }
}

/// What is kept are exactly the items that `keep` holds of.
pub proof fn lemma_kept<T>(s: Seq<T>, keep: spec_fn(T) -> bool)
    ensures
        forall|x: T|
            #![trigger kept(s, keep).contains(x)]
            #![trigger s.contains(x)]
            kept(s, keep).contains(x) <==> s.contains(x) && keep(x),
    decreases s.len(),
{
    if s.len() > 0 {
        let t = s.drop_last();
        lemma_kept(t, keep);
        assert forall|x: T|
            #![trigger kept(s, keep).contains(x)]
            #![trigger s.contains(x)]
            kept(s, keep).contains(x) <==> s.contains(x) && keep(x) by {
            let k = kept(s, keep);
            let kt = kept(t, keep);
            if k.contains(x) {
                let i = choose|i: int| 0 <= i < k.len() && k[i] == x;
                if i < kt.len() {
                    assert(kt[i] == x);
                    assert(kt.contains(x));
                    let j = choose|j: int| 0 <= j < t.len() && t[j] == x;
                    assert(s[j] == x);
                } else {
                    assert(s[s.len() - 1] == x);
                }
            }
            if s.contains(x) && keep(x) {
                let i = choose|i: int| 0 <= i < s.len() && s[i] == x;
                if i < t.len() {
                    assert(t[i] == x);
                    assert(kt.contains(x));
                    let j = choose|j: int| 0 <= j < kt.len() && kt[j] == x;
                    assert(k[j] == x);
                } else {
                    assert(k[k.len() - 1] == x);
                }
            }
        }
    }
}

proof fn lemma_kept_all<T>(s: Seq<T>, keep: spec_fn(T) -> bool)
    requires
        forall|i: int| 0 <= i < s.len() ==> keep(#[trigger] s[i]),
    ensures
        kept(s, keep) == s,
    decreases s.len(),
{
    if s.len() > 0 {
        assert forall|i: int| 0 <= i < s.drop_last().len() implies keep(
            #[trigger] s.drop_last()[i],
        ) by {
            assert(s.drop_last()[i] == s[i]);
        }
        lemma_kept_all(s.drop_last(), keep);
        assert(keep(s[s.len() - 1]));
        assert(s.drop_last().push(s.last()) =~= s);
    }
}

/// `base`, and after it what of `more` is not yet there.
pub open spec fn appended(base: Seq<Seq<char>>, more: Seq<Seq<char>>) -> Seq<Seq<char>>
    decreases more.len(),
{
    if more.len() == 0 {
        base
    } else {
        let b = appended(base, more.drop_last());
        if b.contains(more.last()) {
            b
        } else {
            b.push(more.last())
        }
    }
}

proof fn lemma_appended(base: Seq<Seq<char>>, more: Seq<Seq<char>>)
    ensures
        base.len() <= appended(base, more).len(),
        appended(base, more).take(base.len() as int) == base,
        forall|x: Seq<char>| appended(base, more).contains(x) <==> base.contains(x)
            || more.contains(x),
    decreases more.len(),
{
    let all = appended(base, more);
    if more.len() == 0 {
        assert(all.take(base.len() as int) =~= base);
    } else {
        let t = more.drop_last();
        let b = appended(base, t);
        lemma_appended(base, t);
        assert(all.take(base.len() as int) =~= b.take(base.len() as int));
        assert forall|x: Seq<char>| all.contains(x) <==> base.contains(x) || more.contains(x) by {
            if all.contains(x) {
                let i = choose|i: int| 0 <= i < all.len() && all[i] == x;
                if i < b.len() {
                    assert(b[i] == x);
                    assert(b.contains(x));
                    if t.contains(x) {
                        let j = choose|j: int| 0 <= j < t.len() && t[j] == x;
                        assert(more[j] == x);
                    }
                } else {
                    assert(more[more.len() - 1] == x);
                }
            }
            if base.contains(x) || more.contains(x) {
                if more.contains(x) {
                    let j = choose|j: int| 0 <= j < more.len() && more[j] == x;
                    if j < t.len() {
                        assert(t[j] == x);
                        assert(t.contains(x));
                    }
                }
                if b.contains(x) {
                    let i = choose|i: int| 0 <= i < b.len() && b[i] == x;
                    assert(all[i] == x);
                } else {
                    assert(x == more.last());
                    assert(all[all.len() - 1] == x);
                }
            }
        }
    }
}

proof fn lemma_appended_nothing_new(base: Seq<Seq<char>>, more: Seq<Seq<char>>)
    requires
        forall|i: int| 0 <= i < more.len() ==> base.contains(#[trigger] more[i]),
    ensures
        appended(base, more) == base,
    decreases more.len(),
{
    if more.len() > 0 {
        assert forall|i: int| 0 <= i < more.drop_last().len() implies base.contains(
            #[trigger] more.drop_last()[i],
        ) by {
            assert(more.drop_last()[i] == more[i]);
        }
        lemma_appended_nothing_new(base, more.drop_last());
        assert(base.contains(more[more.len() - 1]));
    }
}

// ---- contributions of a package ----

/// The block of `os`, an empty one where there is none.
pub open spec fn block_or_empty(m: Map<Seq<char>, BlockModel>, os: Seq<char>) -> BlockModel {
    if m.contains_key(os) {
        m[os]
    } else {
        BlockModel { path_prepend: Seq::empty(), env: Map::empty() }
    }
}

/// A block with the contributions of another: its paths after those that are
/// there, without repetition, and its variables over those that are there.
pub open spec fn merged_block(b: BlockModel, a: BlockModel) -> BlockModel {
    BlockModel {
        path_prepend: appended(b.path_prepend, a.path_prepend),
        env: b.env.union_prefer_right(a.env),
    }
}

/// Activation blocks with the contributions of a package.
pub open spec fn merged(
    base: Map<Seq<char>, BlockModel>,
    add: Map<Seq<char>, BlockModel>,
) -> Map<Seq<char>, BlockModel> {
    Map::new(
        |os: Seq<char>| base.contains_key(os) || add.contains_key(os),
        |os: Seq<char>|
            if add.contains_key(os) {
                merged_block(block_or_empty(base, os), add[os])
            } else {
                base[os]
            },
    )
}

fn merge_block(cur: &mut ActivationBlock, a: &ActivationBlock)
    ensures
        final(cur)@ == merged_block(old(cur)@, a@),
{
    let ghost start = cur@;
    let ghost more = a@.path_prepend;
    let mut i: usize = 0;
    while i < a.path_prepend.len()
        invariant
            i <= a.path_prepend.len(),
            more == texts(a.path_prepend@),
            cur@.env == start.env,
            cur@.path_prepend == appended(start.path_prepend, more.take(i as int)),
        decreases a.path_prepend.len() - i,
    {
        proof {
            assert(more.take(i + 1).drop_last() =~= more.take(i as int));
            assert(more.take(i + 1).last() == a.path_prepend@[i as int]@);
        }
        let p = &a.path_prepend[i];
        if !among(&cur.path_prepend, p.as_str()) {
            let ghost before = cur@.path_prepend;
            cur.path_prepend.push(p.clone());
            assert(cur@.path_prepend =~= before.push(p@));
        }
        i = i + 1;
    }
    assert(more.take(more.len() as int) =~= more);
    let n = a.env.len();
    let ghost l = listed(a@.env);
    i = 0;
    proof {
        assert(lists(l, a@.env));
        assert(start.env.union_prefer_right(map_of(l.take(0))) =~= start.env);
    }
    while i < n
        invariant
            i <= n,
            n == l.len(),
            l == listed(a@.env),
            cur@.path_prepend == appended(start.path_prepend, more),
            cur@.env == start.env.union_prefer_right(map_of(l.take(i as int))),
        decreases n - i,
    {
        let (k, v) = a.env.at(i);
        let ghost before = cur@.env;
        cur.env.insert(k.clone(), v.clone());
        proof {
            assert(l.take(i + 1).drop_last() =~= l.take(i as int));
            assert(l.take(i + 1).last() == l[i as int]);
            assert(cur@.env =~= start.env.union_prefer_right(map_of(l.take(i + 1))));
        }
        i = i + 1;
    }
    assert(l.take(l.len() as int) =~= l);
}

/// Merge the contributions of a package into the activation of an env.
pub fn merge_activation(base: &mut StrMap<ActivationBlock>, add: &StrMap<ActivationBlock>)
    ensures
        final(base)@ == merged(old(base)@, add@),
{
    let ghost start = base@;
    let n = add.len();
    let ghost l = listed(add@);
    let mut i: usize = 0;
    proof {
        assert(lists(l, add@));
        assert(merged(start, map_of(l.take(0))) =~= start);
    }
    while i < n
        invariant
            i <= n,
            n == l.len(),
            l == listed(add@),
            rising(l),
            base@ == merged(start, map_of(l.take(i as int))),
        decreases n - i,
    {
        let (os, block) = add.at(i);
        proof {
            assert(l.take(i + 1).drop_last() =~= l.take(i as int));
            assert(l.take(i + 1).last() == l[i as int]);
            lemma_not_listed_before(l, i as int);
        }
        let ghost before = base@;
        let mut cur = match base.remove(os.as_str()) {
            Some(c) => c,
            None => ActivationBlock::default(),
        };
        assert(cur@ == block_or_empty(start, os@));
        merge_block(&mut cur, block);
        base.insert(os.clone(), cur);
        assert(base@ =~= merged(start, map_of(l.take(i + 1))));
        i = i + 1;
    }
    assert(l.take(l.len() as int) =~= l);
}

/// A key does not occur among those before it.
proof fn lemma_not_listed_before<X>(l: Seq<(Seq<char>, X)>, i: int)
    requires
        rising(l),
        0 <= i < l.len(),
    ensures
        !map_of(l.take(i)).contains_key(l[i].0),
{
    lemma_map_of_keys(l.take(i), l[i].0);
    if map_of(l.take(i)).contains_key(l[i].0) {
        let j = choose|j: int| 0 <= j < l.take(i).len() && (#[trigger] l.take(i)[j]).0 == l[i].0;
        assert(l.take(i)[j] == l[j]);
        assert(text_lt(l[j].0, l[i].0));
        lemma_text_lt_irreflexive(l[i].0);
    }
}

/// Merging the same contributions again changes nothing.
pub proof fn law_merge_is_idempotent(
    base: Map<Seq<char>, BlockModel>,
    add: Map<Seq<char>, BlockModel>,
)
    ensures
        merged(merged(base, add), add) == merged(base, add),
{
    let once = merged(base, add);
    let twice = merged(once, add);
    assert forall|os: Seq<char>| #[trigger] twice.contains_key(os) implies twice[os] == once[os] by {
        if add.contains_key(os) {
            let b = block_or_empty(base, os);
            let a = add[os];
            let m = merged_block(b, a);
            lemma_appended(b.path_prepend, a.path_prepend);
            assert forall|i: int| 0 <= i < a.path_prepend.len() implies m.path_prepend.contains(
                #[trigger] a.path_prepend[i],
            ) by {
                assert(a.path_prepend.contains(a.path_prepend[i]));
            }
            lemma_appended_nothing_new(m.path_prepend, a.path_prepend);
            assert(m.env.union_prefer_right(a.env) =~= m.env);
        }
    }
    assert(twice =~= once);
}

/// Merging keeps the paths that are there, in their order and before the new
/// ones, adds every path and every variable of the package, and leaves the
/// other variables alone.
pub proof fn law_merge_adds(b: BlockModel, a: BlockModel, path: Seq<char>, key: Seq<char>)
    ensures
        merged_block(b, a).path_prepend.take(b.path_prepend.len() as int) == b.path_prepend,
        merged_block(b, a).path_prepend.contains(path) <==> b.path_prepend.contains(path)
            || a.path_prepend.contains(path),
        a.env.contains_key(key) ==> merged_block(b, a).env[key] == a.env[key],
        !a.env.contains_key(key) && b.env.contains_key(key) ==> merged_block(b, a).env[key]
            == b.env[key],
        merged_block(b, a).env.contains_key(key) <==> b.env.contains_key(key)
            || a.env.contains_key(key),
{
    lemma_appended(b.path_prepend, a.path_prepend);
}

/// What install records say.
pub open spec fn records_model(v: Seq<InstalledFiles>) -> Seq<RecordModel> {
    Seq::new(v.len(), |i: int| v[i]@)
}

/// The record is another package's and sets the variable for the OS.
pub open spec fn sets_var(r: RecordModel, package: Seq<char>, os: Seq<char>, k: Seq<char>) -> bool {
    r.package != package && r.activation.contains_key(os) && r.activation[os].env.contains_key(k)
}

/// The record is another package's and prepends the path for the OS.
pub open spec fn adds_path(r: RecordModel, package: Seq<char>, os: Seq<char>, p: Seq<char>) -> bool {
    r.package != package && r.activation.contains_key(os)
        && r.activation[os].path_prepend.contains(p)
}

/// Another package than `package` sets the variable for the OS.
pub open spec fn var_needed(
    records: Seq<RecordModel>,
    package: Seq<char>,
    os: Seq<char>,
    k: Seq<char>,
) -> bool {
    exists|i: int| 0 <= i < records.len() && sets_var(#[trigger] records[i], package, os, k)
}

/// Another package than `package` prepends the path for the OS.
pub open spec fn path_needed(
    records: Seq<RecordModel>,
    package: Seq<char>,
    os: Seq<char>,
    p: Seq<char>,
) -> bool {
    exists|i: int| 0 <= i < records.len() && adds_path(#[trigger] records[i], package, os, p)
}

/// Another package than `package` contributes a tool of that name.
pub open spec fn tool_needed(
    records: Seq<RecordModel>,
    package: Seq<char>,
    name: Seq<char>,
) -> bool {
    exists|i: int|
        0 <= i < records.len() && (#[trigger] records[i]).package != package
            && records[i].tools.contains_key(name)
}

/// The variable is one that `package` contributed, that no other package sets
/// and that still has the value it was given.
pub open spec fn var_dropped(
    b: BlockModel,
    c: BlockModel,
    records: Seq<RecordModel>,
    package: Seq<char>,
    os: Seq<char>,
    k: Seq<char>,
) -> bool {
    c.env.contains_key(k) && !var_needed(records, package, os, k) && b.env[k] == c.env[k]
}

/// The path is one that `package` contributed and no other package adds.
pub open spec fn path_dropped(
    c: BlockModel,
    records: Seq<RecordModel>,
    package: Seq<char>,
    os: Seq<char>,
    p: Seq<char>,
) -> bool {
    c.path_prepend.contains(p) && !path_needed(records, package, os, p)
}

/// A block without what a package contributed.
pub open spec fn reverted_block(
    b: BlockModel,
    c: BlockModel,
    records: Seq<RecordModel>,
    package: Seq<char>,
    os: Seq<char>,
) -> BlockModel {
    BlockModel {
        path_prepend: kept(
            b.path_prepend,
            |p: Seq<char>| !path_dropped(c, records, package, os, p),
        ),
        env: Map::new(
            |k: Seq<char>|
                b.env.contains_key(k) && !var_dropped(b, c, records, package, os, k),
            |k: Seq<char>| b.env[k],
        ),
    }
}

/// The block has neither paths nor variables.
pub open spec fn is_bare(b: BlockModel) -> bool {
    b.path_prepend.len() == 0 && b.env == Map::<Seq<char>, Seq<char>>::empty()
}

/// Activation blocks without what a package contributed; a block that is then
/// bare goes.
pub open spec fn reverted(
    base: Map<Seq<char>, BlockModel>,
    contributed: Map<Seq<char>, BlockModel>,
    records: Seq<RecordModel>,
    package: Seq<char>,
) -> Map<Seq<char>, BlockModel> {
    Map::new(
        |os: Seq<char>|
            base.contains_key(os) && !(contributed.contains_key(os) && is_bare(
                reverted_block(base[os], contributed[os], records, package, os),
            )),
        |os: Seq<char>|
            if contributed.contains_key(os) {
                reverted_block(base[os], contributed[os], records, package, os)
            } else {
                base[os]
            },
    )
}

fn needs_var(records: &Vec<InstalledFiles>, package: &str, os: &str, k: &str) -> (r: bool)
    ensures
        r == var_needed(records_model(records@), package@, os@, k@),
{
    let ghost rs = records_model(records@);
    let mut i: usize = 0;
    while i < records.len()
        invariant
            i <= records.len(),
            rs == records_model(records@),
            forall|j: int| 0 <= j < i ==> !sets_var(#[trigger] rs[j], package@, os@, k@),
        decreases records.len() - i,
    {
        let rec = &records[i];
        assert(rs[i as int] == rec@);
        if !same(rec.package.as_str(), package) {
            if let Some(b) = rec.activation.get(os) {
                if b.env.contains_key(k) {
                    assert(sets_var(rs[i as int], package@, os@, k@));
                    return true;
                }
            }
        }
        i = i + 1;
    }
    false
}

fn needs_path(records: &Vec<InstalledFiles>, package: &str, os: &str, p: &str) -> (r: bool)
    ensures
        r == path_needed(records_model(records@), package@, os@, p@),
{
    let ghost rs = records_model(records@);
    let mut i: usize = 0;
    while i < records.len()
        invariant
            i <= records.len(),
            rs == records_model(records@),
            forall|j: int| 0 <= j < i ==> !adds_path(#[trigger] rs[j], package@, os@, p@),
        decreases records.len() - i,
    {
        let rec = &records[i];
        assert(rs[i as int] == rec@);
        if !same(rec.package.as_str(), package) {
            if let Some(b) = rec.activation.get(os) {
                if among(&b.path_prepend, p) {
                    assert(adds_path(rs[i as int], package@, os@, p@));
                    return true;
                }
            }
        }
        i = i + 1;
    }
    false
}

fn needs_tool(records: &Vec<InstalledFiles>, package: &str, name: &str) -> (r: bool)
    ensures
        r == tool_needed(records_model(records@), package@, name@),
{
    let ghost rs = records_model(records@);
    let mut i: usize = 0;
    while i < records.len()
        invariant
            i <= records.len(),
            rs == records_model(records@),
            forall|j: int|
                0 <= j < i ==> (#[trigger] rs[j]).package == package@ || !rs[j].tools.contains_key(
                    name@,
                ),
        decreases records.len() - i,
    {
        let rec = &records[i];
        assert(rs[i as int] == rec@);
        if !same(rec.package.as_str(), package) && rec.tools.contains_key(name) {
            return true;
        }
        i = i + 1;
    }
    false
}

fn revert_block(
    b: &ActivationBlock,
    c: &ActivationBlock,
    records: &Vec<InstalledFiles>,
    package: &str,
    os: &str,
) -> (r: ActivationBlock)
    ensures
        r@ == reverted_block(b@, c@, records_model(records@), package@, os@),
{
    let ghost rs = records_model(records@);
    let ghost keep = |p: Seq<char>| !path_dropped(c@, rs, package@, os@, p);
    let mut paths: Vec<String> = Vec::new();
    let ghost all = b@.path_prepend;
    let mut i: usize = 0;
    assert(texts(paths@) =~= Seq::<Seq<char>>::empty());
    assert(all.take(0) =~= Seq::<Seq<char>>::empty());
    while i < b.path_prepend.len()
        invariant
            i <= b.path_prepend.len(),
            rs == records_model(records@),
            keep == (|p: Seq<char>| !path_dropped(c@, rs, package@, os@, p)),
            all == texts(b.path_prepend@),
            texts(paths@) == kept(all.take(i as int), keep),
        decreases b.path_prepend.len() - i,
    {
        let p = &b.path_prepend[i];
        proof {
            assert(all.take(i + 1).drop_last() =~= all.take(i as int));
            assert(all.take(i + 1).last() == p@);
        }
        if !among(&c.path_prepend, p.as_str()) || needs_path(records, package, os, p.as_str()) {
            let ghost before = texts(paths@);
            paths.push(p.clone());
            assert(texts(paths@) =~= before.push(p@));
        }
        i = i + 1;
    }
    assert(all.take(all.len() as int) =~= all);
    let mut env: StrMap<String> = StrMap::new();
    let n = b.env.len();
    let ghost l = listed(b@.env);
    assert(lists(l, b@.env));
    i = 0;
    while i < n
        invariant
            i <= n,
            n == l.len(),
            l == listed(b@.env),
            lists(l, b@.env),
            rs == records_model(records@),
            forall|k: Seq<char>| #[trigger]
                env@.contains_key(k) <==> map_of(l.take(i as int)).contains_key(k) && !var_dropped(
                    b@,
                    c@,
                    rs,
                    package@,
                    os@,
                    k,
                ),
            forall|k: Seq<char>| #[trigger] env@.contains_key(k) ==> env@[k] == b@.env[k],
        decreases n - i,
    {
        let (k, v) = b.env.at(i);
        proof {
            assert(l.take(i + 1).drop_last() =~= l.take(i as int));
            assert(l.take(i + 1).last() == l[i as int]);
            lemma_map_of_at(l, i as int);
            lemma_not_listed_before(l, i as int);
        }
        let given = match c.env.get(k.as_str()) {
            Some(x) => same(x.as_str(), v.as_str()),
            None => false,
        };
        if !given || needs_var(records, package, os, k.as_str()) {
            env.insert(k.clone(), v.clone());
        }
        i = i + 1;
    }
    let r = ActivationBlock { path_prepend: paths, env };
    proof {
        assert(l.take(l.len() as int) =~= l);
        let want = reverted_block(b@, c@, rs, package@, os@);
        assert(r@.env =~= want.env);
        assert(want.path_prepend == kept(all, keep));
    }
    r
}

/// Take back what a package contributed to the activation of an env, but for
/// what another package still provides or the user has changed since.
pub fn revert_activation(
    base: &mut StrMap<ActivationBlock>,
    contributed: &StrMap<ActivationBlock>,
    records: &Vec<InstalledFiles>,
    package: &str,
)
    ensures
        final(base)@ == reverted(
            old(base)@,
            contributed@,
            records_model(records@),
            package@,
        ),
{
    let ghost start = base@;
    let ghost rs = records_model(records@);
    let n = contributed.len();
    let ghost l = listed(contributed@);
    let mut i: usize = 0;
    proof {
        assert(lists(l, contributed@));
        assert(reverted(start, map_of(l.take(0)), rs, package@) =~= start);
    }
    while i < n
        invariant
            i <= n,
            n == l.len(),
            l == listed(contributed@),
            rising(l),
            rs == records_model(records@),
            base@ == reverted(start, map_of(l.take(i as int)), rs, package@),
        decreases n - i,
    {
        let (os, block) = contributed.at(i);
        proof {
            assert(l.take(i + 1).drop_last() =~= l.take(i as int));
            assert(l.take(i + 1).last() == l[i as int]);
            lemma_not_listed_before(l, i as int);
        }
        let ghost before = base@;
        if let Some(cur) = base.remove(os.as_str()) {
            let b = revert_block(&cur, block, records, package, os.as_str());
            assert(texts(b.path_prepend@).len() == b.path_prepend@.len());
            if !(b.path_prepend.len() == 0 && b.env.is_empty()) {
                base.insert(os.clone(), b);
            }
        }
        assert(base@ =~= reverted(start, map_of(l.take(i + 1)), rs, package@));
        i = i + 1;
    }
    assert(l.take(l.len() as int) =~= l);
}

/// Tools without those that a package contributed, but for what another
/// package still contributes or the user has redefined.
pub open spec fn reverted_tools(
    base: Map<Seq<char>, ToolModel>,
    contributed: Map<Seq<char>, ToolModel>,
    records: Seq<RecordModel>,
    package: Seq<char>,
) -> Map<Seq<char>, ToolModel> {
    Map::new(
        |t: Seq<char>|
            base.contains_key(t) && !(contributed.contains_key(t) && !tool_needed(
                records,
                package,
                t,
            ) && base[t] == contributed[t]),
        |t: Seq<char>| base[t],
    )
}

fn same_list(a: &Vec<String>, b: &Vec<String>) -> (r: bool)
    ensures
        r == (texts(a@) == texts(b@)),
{
    if a.len() != b.len() {
        assert(texts(a@).len() != texts(b@).len());
        return false;
    }
    let mut i: usize = 0;
    while i < a.len()
        invariant
            i <= a.len(),
            a.len() == b.len(),
            forall|j: int| 0 <= j < i ==> a@[j]@ == b@[j]@,
        decreases a.len() - i,
    {
        if !same(a[i].as_str(), b[i].as_str()) {
            assert(texts(a@)[i as int] != texts(b@)[i as int]);
            return false;
        }
        i = i + 1;
    }
    assert(texts(a@) =~= texts(b@));
    true
}

fn same_tool(a: &Tool, b: &Tool) -> (r: bool)
    ensures
        r == (a@ == b@),
{
    same(a.run.as_str(), b.run.as_str()) && same_list(&a.args, &b.args) && same_texts(
        &a.env,
        &b.env,
    ) && a.restart == b.restart
}

/// Take back the tools that a package contributed.
pub fn revert_tools(
    base: &mut StrMap<Tool>,
    contributed: &StrMap<Tool>,
    records: &Vec<InstalledFiles>,
    package: &str,
)
    ensures
        final(base)@ == reverted_tools(
            old(base)@,
            contributed@,
            records_model(records@),
            package@,
        ),
{
    let ghost start = base@;
    let ghost rs = records_model(records@);
    let n = contributed.len();
    let ghost l = listed(contributed@);
    let mut i: usize = 0;
    proof {
        assert(lists(l, contributed@));
        assert(reverted_tools(start, map_of(l.take(0)), rs, package@) =~= start);
    }
    while i < n
        invariant
            i <= n,
            n == l.len(),
            l == listed(contributed@),
            rising(l),
            rs == records_model(records@),
            base@ == reverted_tools(start, map_of(l.take(i as int)), rs, package@),
        decreases n - i,
    {
        let (name, tool) = contributed.at(i);
        proof {
            assert(l.take(i + 1).drop_last() =~= l.take(i as int));
            assert(l.take(i + 1).last() == l[i as int]);
            lemma_not_listed_before(l, i as int);
        }
        let unchanged = match base.get(name.as_str()) {
            Some(t) => same_tool(t, tool),
            None => false,
        };
        if unchanged && !needs_tool(records, package, name.as_str()) {
            base.remove(name.as_str());
        }
        assert(base@ =~= reverted_tools(start, map_of(l.take(i + 1)), rs, package@));
        i = i + 1;
    }
    assert(l.take(l.len() as int) =~= l);
}

/// What another package still provides, and what the user has changed since,
/// survives the removal of a package.
pub proof fn law_revert_spares_the_rest(
    b: BlockModel,
    c: BlockModel,
    records: Seq<RecordModel>,
    package: Seq<char>,
    os: Seq<char>,
    path: Seq<char>,
    key: Seq<char>,
)
    ensures
        b.path_prepend.contains(path) && (path_needed(records, package, os, path)
            || !c.path_prepend.contains(path)) ==> reverted_block(
            b,
            c,
            records,
            package,
            os,
        ).path_prepend.contains(path),
        b.env.contains_key(key) && (var_needed(records, package, os, key) || !c.env.contains_key(
            key,
        ) || b.env[key] != c.env[key]) ==> reverted_block(
            b,
            c,
            records,
            package,
            os,
        ).env.contains_key(key) && reverted_block(b, c, records, package, os).env[key]
            == b.env[key],
{
    lemma_kept(b.path_prepend, |p: Seq<char>| !path_dropped(c, records, package, os, p));
}

/// Nothing of `add` is in the blocks of `base`, and none of the blocks that
/// both have is bare.
pub open spec fn apart(base: Map<Seq<char>, BlockModel>, add: Map<Seq<char>, BlockModel>) -> bool {
    forall|os: Seq<char>| #[trigger]
        base.contains_key(os) && add.contains_key(os) ==> !is_bare(base[os])
            && base[os].env.dom().disjoint(add[os].env.dom()) && (forall|p: Seq<char>|
            !(base[os].path_prepend.contains(p) && add[os].path_prepend.contains(p)))
}

/// No package other than `package` provides anything of `add`.
pub open spec fn unshared(
    add: Map<Seq<char>, BlockModel>,
    records: Seq<RecordModel>,
    package: Seq<char>,
) -> bool {
    &&& forall|os: Seq<char>, k: Seq<char>|
        add.contains_key(os) && add[os].env.contains_key(k) ==> !#[trigger] var_needed(
            records,
            package,
            os,
            k,
        )
    &&& forall|os: Seq<char>, p: Seq<char>|
        add.contains_key(os) && add[os].path_prepend.contains(p) ==> !#[trigger] path_needed(
            records,
            package,
            os,
            p,
        )
}

/// Taking back what was merged restores the activation, where no other package
/// provides any of it, none of it was there before, and no block was bare.
pub proof fn law_revert_undoes_merge(
    base: Map<Seq<char>, BlockModel>,
    add: Map<Seq<char>, BlockModel>,
    records: Seq<RecordModel>,
    package: Seq<char>,
)
    requires
        apart(base, add),
        unshared(add, records, package),
    ensures
        reverted(merged(base, add), add, records, package) == base,
{
    let m = merged(base, add);
    let r = reverted(m, add, records, package);
    assert forall|os: Seq<char>| true implies #[trigger] r.contains_key(os) == base.contains_key(os)
        && (base.contains_key(os) ==> r[os] == base[os]) by {
        if add.contains_key(os) {
            let b = block_or_empty(base, os);
            let a = add[os];
            let x = reverted_block(m[os], a, records, package, os);
            lemma_appended(b.path_prepend, a.path_prepend);
            lemma_kept_of_appended(
                b.path_prepend,
                a.path_prepend,
                |p: Seq<char>| !path_dropped(a, records, package, os, p),
            );
            assert(x.path_prepend == b.path_prepend);
            assert(x.env =~= b.env) by {
                assert forall|k: Seq<char>| true implies #[trigger] x.env.contains_key(k)
                    == b.env.contains_key(k) by {
                    if a.env.contains_key(k) {
                        assert(!var_needed(records, package, os, k));
                    }
                    if b.env.contains_key(k) && a.env.contains_key(k) {
                        assert(base[os].env.dom().contains(k) && add[os].env.dom().contains(k));
                    }
                }
            }
            if !base.contains_key(os) {
                assert(is_bare(x));
            }
        }
    }
    assert(r =~= base);
}

proof fn lemma_kept_of_appended(
    base: Seq<Seq<char>>,
    more: Seq<Seq<char>>,
    keep: spec_fn(Seq<char>) -> bool,
)
    requires
        forall|x: Seq<char>| base.contains(x) ==> keep(x),
        forall|x: Seq<char>| more.contains(x) ==> !keep(x),
    ensures
        kept(appended(base, more), keep) == base,
    decreases more.len(),
{
    if more.len() == 0 {
        assert forall|i: int| 0 <= i < base.len() implies keep(#[trigger] base[i]) by {
            assert(base.contains(base[i]));
        }
        lemma_kept_all(base, keep);
    } else {
        let t = more.drop_last();
        assert forall|x: Seq<char>| t.contains(x) implies !keep(x) by {
            let j = choose|j: int| 0 <= j < t.len() && t[j] == x;
            assert(more[j] == x);
            assert(more.contains(x));
        }
        lemma_kept_of_appended(base, t, keep);
        let b = appended(base, t);
        assert(more.contains(more[more.len() - 1]));
        assert(b.push(more.last()).drop_last() =~= b);
    }
}

// ---- installing and uninstalling ----

/// The position of the first package of that name, the length where there is
/// none.
pub open spec fn first_named(s: Seq<PackageModel>, name: Seq<char>) -> int
    decreases s.len(),
{
    if s.len() == 0 || s[0].name == name {
        0
    } else {
        1 + first_named(s.drop_first(), name)
    }
}

/// The packages with `p` in place of the first of its name, or after them all.
pub open spec fn with_package(s: Seq<PackageModel>, p: PackageModel) -> Seq<PackageModel> {
    let i = first_named(s, p.name);
    if 0 <= i < s.len() {
        s.update(i, p)
    } else {
        s.push(p)
    }
}

proof fn lemma_first_named(s: Seq<PackageModel>, name: Seq<char>)
    ensures
        0 <= first_named(s, name) <= s.len(),
        first_named(s, name) < s.len() ==> s[first_named(s, name)].name == name,
        forall|j: int| 0 <= j < first_named(s, name) ==> (#[trigger] s[j]).name != name,
    decreases s.len(),
{
    if s.len() > 0 && s[0].name != name {
        let t = s.drop_first();
        lemma_first_named(t, name);
        assert forall|j: int| 0 <= j < first_named(s, name) implies (#[trigger] s[j]).name
            != name by {
            if j > 0 {
                assert(t[j - 1] == s[j]);
            }
        }
    }
}

fn find_package(v: &Vec<PackageRef>, name: &str) -> (r: usize)
    ensures
        r == first_named(packages_model(v@), name@),
        r <= v@.len(),
{
    let ghost m = packages_model(v@);
    proof {
        lemma_first_named(m, name@);
    }
    let mut i: usize = 0;
    while i < v.len() && !same(v[i].name.as_str(), name)
        invariant
            i <= v.len(),
            m == packages_model(v@),
            forall|j: int| 0 <= j < i ==> (#[trigger] m[j]).name != name@,
        decreases v.len() - i,
    {
        assert(m[i as int].name == v@[i as int].name@);
        i = i + 1;
    }
    proof {
        let f = first_named(m, name@);
        if i < v.len() {
            assert(m[i as int].name == name@);
        }
        if f < i {
            assert(m[f].name == name@);
        }
    }
    i
}

fn copy_packages(v: &Vec<PackageRef>) -> (r: Vec<PackageRef>)
    ensures
        packages_model(r@) == packages_model(v@),
{
    let mut r: Vec<PackageRef> = Vec::new();
    let mut i: usize = 0;
    let ghost all = packages_model(v@);
    while i < v.len()
        invariant
            i <= v.len(),
            all == packages_model(v@),
            packages_model(r@) == all.take(i as int),
        decreases v.len() - i,
    {
        let ghost before = packages_model(r@);
        let p = v[i].dup();
        r.push(p);
        assert(packages_model(r@) =~= before.push(p@));
        assert(all.take(i + 1) =~= all.take(i as int).push(all[i as int]));
        i = i + 1;
    }
    assert(all.take(all.len() as int) =~= all);
    r
}

impl Dup for Manifest {
    fn dup(&self) -> (r: Self) {
        Manifest {
            name: self.name.clone(),
            version: self.version.clone(),
            description: match &self.description {
                Some(d) => Some(d.clone()),
                None => None,
            },
            packages: copy_packages(&self.packages),
            activation: self.activation.dup(),
            tools: self.tools.dup(),
        }
    }
}

/// What is installed: the package, what it laid down and what it contributes.
pub struct Arrival {
    pub name: String,
    pub version: String,
    pub source: String,
    pub files: Vec<String>,
    pub activation: StrMap<ActivationBlock>,
    pub tools: StrMap<Tool>,
}

impl View for Arrival {
    type V = RecordModel;

    open spec fn view(&self) -> RecordModel {
        RecordModel {
            package: self.name@,
            version: self.version@,
            source: self.source@,
            files: texts(self.files@),
            activation: self.activation@,
            tools: self.tools@,
        }
    }
}

/// The manifest of an env once a package is installed: the package is listed
/// once, its activation merged, its tools there in place of those of the same
/// name.
pub open spec fn installed_manifest(m: ManifestModel, a: RecordModel) -> ManifestModel {
    ManifestModel {
        packages: with_package(
            m.packages,
            PackageModel { name: a.package, version: a.version, source: a.source },
        ),
        activation: merged(m.activation, a.activation),
        tools: m.tools.union_prefer_right(a.tools),
        ..m
    }
}

fn merge_tools(base: &mut StrMap<Tool>, add: &StrMap<Tool>)
    ensures
        final(base)@ == old(base)@.union_prefer_right(add@),
{
    let ghost start = base@;
    let n = add.len();
    let ghost l = listed(add@);
    let mut i: usize = 0;
    proof {
        assert(lists(l, add@));
        assert(start.union_prefer_right(map_of(l.take(0))) =~= start);
    }
    while i < n
        invariant
            i <= n,
            n == l.len(),
            l == listed(add@),
            base@ == start.union_prefer_right(map_of(l.take(i as int))),
        decreases n - i,
    {
        let (k, v) = add.at(i);
        base.insert(k.clone(), v.dup());
        proof {
            assert(l.take(i + 1).drop_last() =~= l.take(i as int));
            assert(l.take(i + 1).last() == l[i as int]);
            assert(base@ =~= start.union_prefer_right(map_of(l.take(i + 1))));
        }
        i = i + 1;
    }
    assert(l.take(l.len() as int) =~= l);
}

/// The manifest of an env once a package is installed, and the record of what
/// the package laid down and contributed.
pub fn finish_install(manifest: &Manifest, a: Arrival) -> (r: (Manifest, InstalledFiles))
    ensures
        r.0@ == installed_manifest(manifest@, a@),
        r.1@ == a@,
        r.1.package@ == a.name@ && r.1.version@ == a.version@ && r.1.source@ == a.source@,
        texts(r.1.files@) == texts(a.files@),
        r.1.activation@ == a.activation@ && r.1.tools@ == a.tools@,
{
    let mut m = manifest.dup();
    let ghost ps = m@.packages;
    let p = PackageRef {
        name: a.name.clone(),
        version: a.version.clone(),
        source: a.source.clone(),
    };
    let i = find_package(&m.packages, a.name.as_str());
    assert(packages_model(m.packages@).len() == m.packages@.len());
    if i < m.packages.len() {
        m.packages.set(i, p);
        assert(packages_model(m.packages@) =~= ps.update(i as int, p@));
    } else {
        m.packages.push(p);
        assert(packages_model(m.packages@) =~= ps.push(p@));
    }
    merge_activation(&mut m.activation, &a.activation);
    merge_tools(&mut m.tools, &a.tools);
    let record = InstalledFiles {
        package: a.name,
        version: a.version,
        source: a.source,
        files: a.files,
        activation: a.activation,
        tools: a.tools,
    };
    (m, record)
}

/// Patch the sentinels in the files of a package that was just installed.
/// Files that were relocated before hold no sentinel any more and stay as they
/// are.
pub fn settle(tree: &mut EnvTree, index: &RelocateIndex, root: &str) -> (r: Result<
    (),
    RelocateError,
>)
    ensures
        if index@.len() == 0 {
            r is Ok && final(tree)@ == old(tree)@
        } else {
            relocates(old(tree)@, index@, PREFIX_SENTINEL@, root@, final(tree)@, r)
        },
{
    if index.entries.len() == 0 {
        return Ok(());
    }
    apply_with_prev(tree, index, PREFIX_SENTINEL, root)
}

/// The manifest of an env once a package is removed: the package is listed no
/// more, and what it contributed is taken back.
pub open spec fn uninstalled_manifest(
    m: ManifestModel,
    package: Seq<char>,
    record: RecordModel,
    records: Seq<RecordModel>,
) -> ManifestModel {
    ManifestModel {
        packages: kept(m.packages, |p: PackageModel| p.name != package),
        activation: reverted(m.activation, record.activation, records, package),
        tools: reverted_tools(m.tools, record.tools, records, package),
        ..m
    }
}

/// The manifest of an env once a package is removed. `record` is what was
/// recorded of the package, `records` all that is recorded in the env.
pub fn uninstall(
    manifest: &Manifest,
    package: &str,
    record: &InstalledFiles,
    records: &Vec<InstalledFiles>,
) -> (r: Manifest)
    ensures
        r@ == uninstalled_manifest(manifest@, package@, record@, records_model(records@)),
        forall|i: int| 0 <= i < r@.packages.len() ==> (#[trigger] r@.packages[i]).name != package@,
        exists|at: Seq<int>| #[trigger]
            selects(manifest@.packages, r@.packages, at) && forall|k: int|
                0 <= k < manifest@.packages.len() && (#[trigger] manifest@.packages[k]).name
                    != package@ ==> at.contains(k),
{
    let mut m = manifest.dup();
    let ghost keep = |p: PackageModel| p.name != package@;
    let ghost all = m@.packages;
    let mut packages: Vec<PackageRef> = Vec::new();
    let mut i: usize = 0;
    assert(packages_model(packages@) =~= Seq::<PackageModel>::empty());
    assert(all.take(0) =~= Seq::<PackageModel>::empty());
    while i < m.packages.len()
        invariant
            i <= m.packages.len(),
            all == packages_model(m.packages@),
            keep == (|p: PackageModel| p.name != package@),
            packages_model(packages@) == kept(all.take(i as int), keep),
        decreases m.packages.len() - i,
    {
        let p = &m.packages[i];
        proof {
            assert(all.take(i + 1).drop_last() =~= all.take(i as int));
            assert(all.take(i + 1).last() == p@);
        }
        if !same(p.name.as_str(), package) {
            let ghost before = packages_model(packages@);
            let q = p.dup();
            packages.push(q);
            assert(packages_model(packages@) =~= before.push(q@));
        }
        i = i + 1;
    }
    assert(all.take(all.len() as int) =~= all);
    m.packages = packages;
    revert_activation(&mut m.activation, &record.activation, records, package);
    revert_tools(&mut m.tools, &record.tools, records, package);
    proof {
        law_uninstalled_package_is_gone(
            manifest@,
            package@,
            record@,
            records_model(records@),
        );
    }
    m
}

/// Uninstalling a package right after it was installed restores the manifest,
/// where the package was not installed before and what it contributes was
/// neither there nor is provided by another package.
pub proof fn law_uninstall_undoes_install(
    m: ManifestModel,
    a: RecordModel,
    records: Seq<RecordModel>,
)
    requires
        forall|i: int| 0 <= i < m.packages.len() ==> (#[trigger] m.packages[i]).name != a.package,
        apart(m.activation, a.activation),
        unshared(a.activation, records, a.package),
        m.tools.dom().disjoint(a.tools.dom()),
        forall|t: Seq<char>| #[trigger]
            a.tools.contains_key(t) ==> !tool_needed(records, a.package, t),
    ensures
        uninstalled_manifest(installed_manifest(m, a), a.package, a, records) == m,
{
    let p = PackageModel { name: a.package, version: a.version, source: a.source };
    let keep = |x: PackageModel| x.name != a.package;
    lemma_first_named(m.packages, a.package);
    assert(with_package(m.packages, p) == m.packages.push(p));
    assert(m.packages.push(p).drop_last() =~= m.packages);
    lemma_kept_all(m.packages, keep);
    law_revert_undoes_merge(m.activation, a.activation, records, a.package);
    let tools = reverted_tools(m.tools.union_prefer_right(a.tools), a.tools, records, a.package);
    assert(tools =~= m.tools) by {
        assert forall|t: Seq<char>| true implies #[trigger] tools.contains_key(t)
            == m.tools.contains_key(t) by {
            if m.tools.contains_key(t) && a.tools.contains_key(t) {
                assert(m.tools.dom().contains(t) && a.tools.dom().contains(t));
            }
        }
    }
}

/// Installing what is installed already changes nothing in the manifest.
pub proof fn law_install_is_idempotent(m: ManifestModel, a: RecordModel)
    ensures
        installed_manifest(installed_manifest(m, a), a) == installed_manifest(m, a),
{
    let p = PackageModel { name: a.package, version: a.version, source: a.source };
    let once = with_package(m.packages, p);
    let i = first_named(m.packages, p.name);
    let j = first_named(once, p.name);
    lemma_first_named(m.packages, p.name);
    lemma_first_named(once, p.name);
    assert(once[i] == p);
    if i < j {
        assert(once[i].name != p.name);
    }
    if j < i {
        assert(m.packages[j].name != p.name);
        assert(once[j] == m.packages[j]);
    }
    assert(once.update(i, p) =~= once);
    law_merge_is_idempotent(m.activation, a.activation);
    let tools = m.tools.union_prefer_right(a.tools);
    assert(tools.union_prefer_right(a.tools) =~= tools);
}

/// Uninstalling a package leaves the tools that another package contributes, or
/// that have been redefined since, as they are.
pub proof fn law_other_tools_survive(
    base: Map<Seq<char>, ToolModel>,
    contributed: Map<Seq<char>, ToolModel>,
    records: Seq<RecordModel>,
    package: Seq<char>,
    t: Seq<char>,
)
    requires
        base.contains_key(t),
        tool_needed(records, package, t) || !contributed.contains_key(t) || base[t]
            != contributed[t],
    ensures
        reverted_tools(base, contributed, records, package).contains_key(t),
        reverted_tools(base, contributed, records, package)[t] == base[t],
{
}

/// An installed package is listed with its version and source, the others as
/// they were; an uninstalled one is not listed.
pub proof fn law_packages_listed(s: Seq<PackageModel>, p: PackageModel, other: PackageModel)
    ensures
        with_package(s, p).contains(p),
        other.name != p.name ==> (with_package(s, p).contains(other) <==> s.contains(other)),
        !kept(s, |x: PackageModel| x.name != p.name).contains(p),
        other.name != p.name ==> (kept(s, |x: PackageModel| x.name != p.name).contains(other)
            <==> s.contains(other)),
{
    let w = with_package(s, p);
    let i = first_named(s, p.name);
    lemma_first_named(s, p.name);
    lemma_kept(s, |x: PackageModel| x.name != p.name);
    assert(w[i] == p);
    if other.name != p.name {
        if w.contains(other) {
            let j = choose|j: int| 0 <= j < w.len() && w[j] == other;
            assert(s[j] == other);
        }
        if s.contains(other) {
            let j = choose|j: int| 0 <= j < s.len() && s[j] == other;
            assert(w[j] == other);
        }
    }
}

/// Which source an install takes.
#[derive(Debug, PartialEq, Eq)]
pub enum InstallSource {
    /// An OCI reference.
    Reference(String),
    /// A local directory.
    Directory(String),
}

/// The model of an install's source.
pub enum SourceModel {
    Reference(Seq<char>),
    Directory(Seq<char>),
}

impl View for InstallSource {
    type V = SourceModel;

    open spec fn view(&self) -> SourceModel {
        match self {
            InstallSource::Reference(s) => SourceModel::Reference(s@),
            InstallSource::Directory(s) => SourceModel::Directory(s@),
        }
    }
}

/// Why an install cannot start.
#[derive(Debug, Clone, Copy, PartialEq, Eq, Structural)]
pub enum InstallError {
    BothGiven,
    NothingGiven,
    /// The package has no name.
    NoName,
}

impl InstallError {
    /// The text of the error.
    pub fn message(self) -> (r: String)
        ensures
            r@ == (match self {
                InstallError::BothGiven => "pass either a package reference or --from, not both"@,
                InstallError::NothingGiven => "provide a package reference or --from <dir>"@,
                InstallError::NoName => "could not infer package name from path; pass --name"@,
            }),
    {
        match self {
            InstallError::BothGiven =>
                "pass either a package reference or --from, not both".to_owned(),
            InstallError::NothingGiven => "provide a package reference or --from <dir>".to_owned(),
            InstallError::NoName =>
                "could not infer package name from path; pass --name".to_owned(),
        }
    }
}

/// The source of an install: a reference or a directory, but not both.
pub fn install_source(package: Option<String>, from: Option<String>) -> (r: Result<
    InstallSource,
    InstallError,
>)
    ensures
        match (opt_text(package), opt_text(from)) {
            (Some(_), Some(_)) => r == Err::<InstallSource, _>(InstallError::BothGiven),
            (None, None) => r == Err::<InstallSource, _>(InstallError::NothingGiven),
            (Some(p), None) => r matches Ok(InstallSource::Reference(s)) && s@ == p,
            (None, Some(d)) => r matches Ok(InstallSource::Directory(s)) && s@ == d,
        },
{
    match (package, from) {
        (Some(_), Some(_)) => Err(InstallError::BothGiven),
        (None, None) => Err(InstallError::NothingGiven),
        (Some(p), None) => Ok(InstallSource::Reference(p)),
        (None, Some(d)) => Ok(InstallSource::Directory(d)),
    }
}

/// What installing from a directory installs: name and version as given, else
/// from the package's own manifest, else the directory's name and `0.0.0`; the
/// contributions of the package's manifest, if it has one.
pub fn install_from(
    name: Option<&str>,
    version: Option<&str>,
    pkg: Option<&Manifest>,
    dir: &str,
    dir_name: Option<&str>,
    files: Vec<String>,
) -> (r: Result<Arrival, InstallError>)
    ensures
        match r {
            Ok(a) => {
                &&& texts(a.files@) == texts(files@)
                &&& a.source@ == "file://"@ + dir@
                &&& a.name@ == (match (name, pkg, dir_name) {
                    (Some(n), _, _) => n@,
                    (None, Some(m), _) => m@.name,
                    (None, None, Some(d)) => d@,
                    (None, None, None) => a.name@,
                })
                &&& a.version@ == (match (version, pkg) {
                    (Some(v), _) => v@,
                    (None, Some(m)) => m@.version,
                    (None, None) => "0.0.0"@,
                })
                &&& a.activation@ == (match pkg {
                    Some(m) => m@.activation,
                    None => Map::empty(),
                })
                &&& a.tools@ == (match pkg {
                    Some(m) => m@.tools,
                    None => Map::empty(),
                })
            },
            Err(e) => e == InstallError::NoName,
        },
        r is Err <==> name is None && pkg is None && dir_name is None,
{
    let pkg_name = match (name, pkg, dir_name) {
        (Some(n), _, _) => n.to_owned(),
        (None, Some(m), _) => m.name.clone(),
        (None, None, Some(d)) => d.to_owned(),
        (None, None, None) => {
            return Err(InstallError::NoName);
        },
    };
    let pkg_version = match (version, pkg) {
        (Some(v), _) => v.to_owned(),
        (None, Some(m)) => m.version.clone(),
        (None, None) => "0.0.0".to_owned(),
    };
    let (activation, tools) = match pkg {
        Some(m) => (m.activation.dup(), m.tools.dup()),
        None => (StrMap::new(), StrMap::new()),
    };
    let mut source = "file://".to_owned();
    source.push_str(dir);
    Ok(Arrival { name: pkg_name, version: pkg_version, source, files, activation, tools })
}

// ---- updating ----

/// The name and the source of each package.
pub open spec fn sources_of(s: Seq<PackageModel>) -> Seq<(Seq<char>, Seq<char>)> {
    Seq::new(s.len(), |i: int| (s[i].name, s[i].source))
}

/// What an update fetches: every package, or the one named if it is installed.
pub fn update_targets(manifest: &Manifest, package: Option<&str>) -> (r: Option<
    Vec<(String, String)>,
>)
    ensures
        match (package, r) {
            (None, Some(v)) => crate::activate::pair_texts(v@) == sources_of(manifest@.packages),
            (None, None) => false,
            (Some(p), Some(v)) => {
                let i = first_named(manifest@.packages, p@);
                i < manifest@.packages.len() && crate::activate::pair_texts(v@) == seq![
                    (p@, manifest@.packages[i].source),
                ]
            },
            (Some(p), None) => first_named(manifest@.packages, p@) >= manifest@.packages.len(),
        },
{
    let ghost ps = manifest@.packages;
    let mut r: Vec<(String, String)> = Vec::new();
    match package {
        Some(p) => {
            let i = find_package(&manifest.packages, p);
            proof {
                lemma_first_named(ps, p@);
            }
            if i >= manifest.packages.len() {
                return None;
            }
            r.push((manifest.packages[i].name.clone(), manifest.packages[i].source.clone()));
            assert(ps[i as int] == manifest.packages@[i as int]@);
            assert(crate::activate::pair_texts(r@) =~= seq![(p@, ps[i as int].source)]);
            Some(r)
        },
        None => {
            let ghost all = sources_of(ps);
            let mut i: usize = 0;
            while i < manifest.packages.len()
                invariant
                    i <= manifest.packages.len(),
                    ps == packages_model(manifest.packages@),
                    all == sources_of(ps),
                    crate::activate::pair_texts(r@) == all.take(i as int),
                decreases manifest.packages.len() - i,
            {
                let p = &manifest.packages[i];
                let ghost before = crate::activate::pair_texts(r@);
                r.push((p.name.clone(), p.source.clone()));
                assert(crate::activate::pair_texts(r@) =~= before.push((p@.name, p@.source)));
                assert(all.take(i + 1) =~= all.take(i as int).push(all[i as int]));
                i = i + 1;
            }
            assert(all.take(all.len() as int) =~= all);
            Some(r)
        },
    }
}

/// Where a recorded source is fetched from: a `file://` source is a directory,
/// any other a reference.
pub open spec fn source_for(source: Seq<char>) -> SourceModel {
    if occurs_at(source, "file://"@, 0) {
        SourceModel::Directory(source.skip("file://"@.len() as int))
    } else {
        SourceModel::Reference(source)
    }
}

/// Where a recorded source is fetched from.
pub fn update_source(source: &str) -> (r: InstallSource)
    ensures
        r@ == source_for(source@),
{
    if crate::text::begins(source, "file://") {
        let v = chars_of(source);
        proof {
            reveal_strlit("file://");
            assert(source@.skip(7) =~= v@.subrange(7, v@.len() as int));
        }
        return InstallSource::Directory(string_of(&v, 7, v.len()));
    }
    InstallSource::Reference(source.to_owned())
}

/// A package and where its update is fetched from.
pub struct UpdateTarget {
    pub name: String,
    pub source: InstallSource,
}

/// The names and the sources of some packages.
pub open spec fn target_models(v: Seq<UpdateTarget>) -> Seq<(Seq<char>, SourceModel)> {
    Seq::new(v.len(), |i: int| (v[i].name@, v[i].source@))
}

/// What an update of all packages fetches, or of the one named where it is
/// installed.
pub open spec fn updates(s: Seq<PackageModel>, package: Option<Seq<char>>) -> Option<
    Seq<(Seq<char>, SourceModel)>,
> {
    match package {
        None => Some(Seq::new(s.len(), |i: int| (s[i].name, source_for(s[i].source)))),
        Some(p) => {
            let i = first_named(s, p);
            if i < s.len() {
                Some(seq![(p, source_for(s[i].source))])
            } else {
                None
            }
        },
    }
}

/// What an update fetches, in turn. The error is the text to show where the
/// named package is not installed in the env.
pub fn update(manifest: &Manifest, package: Option<&str>, env: &str) -> (r: Result<
    Vec<UpdateTarget>,
    String,
>)
    ensures
        match r {
            Ok(v) => updates(manifest@.packages, opt_view(package)) == Some(target_models(v@)),
            Err(e) => updates(manifest@.packages, opt_view(package)) is None && e@ == "'"@
                + package->Some_0@ + "' is not installed in '"@ + env@ + "'"@,
        },
{
    let ghost ps = manifest@.packages;
    let pairs = match update_targets(manifest, package) {
        Some(pairs) => pairs,
        None => {
            let mut e = "'".to_owned();
            if let Some(p) = package {
                e.push_str(p);
            }
            e.push_str("' is not installed in '");
            e.push_str(env);
            e.push_str("'");
            return Err(e);
        },
    };
    let mut r: Vec<UpdateTarget> = Vec::new();
    let ghost given = crate::activate::pair_texts(pairs@);
    let ghost all = Seq::new(given.len(), |i: int| (given[i].0, source_for(given[i].1)));
    let mut i: usize = 0;
    while i < pairs.len()
        invariant
            i <= pairs.len(),
            given == crate::activate::pair_texts(pairs@),
            all == Seq::new(given.len(), |i: int| (given[i].0, source_for(given[i].1))),
            target_models(r@) == all.take(i as int),
        decreases pairs.len() - i,
    {
        let ghost before = target_models(r@);
        let t = UpdateTarget {
            name: pairs[i].0.clone(),
            source: update_source(pairs[i].1.as_str()),
        };
        assert((t.name@, t.source@) == all[i as int]);
        r.push(t);
        assert(target_models(r@) =~= before.push(all[i as int]));
        assert(all.take(i + 1) =~= all.take(i as int).push(all[i as int]));
        i = i + 1;
    }
    proof {
        assert(all.take(all.len() as int) =~= all);
        match package {
            None => {
                assert(all =~= Seq::new(ps.len(), |i: int| (ps[i].name, source_for(ps[i].source))));
            },
            Some(p) => {
                assert(all =~= seq![(p@, source_for(ps[first_named(ps, p@)].source))]);
            },
        }
    }
    Ok(r)
}

/// The text to show after an update of `n` packages.
pub fn update_text(env: &str, n: usize) -> (r: String)
    ensures
        r@ == (if n == 0 {
            "No packages installed in '"@ + env@ + "'.\n"@
        } else {
            "Updated "@ + digits(n as nat) + " package(s) in '"@ + env@ + "'\n"@
        }),
{
    if n == 0 {
        let mut r = "No packages installed in '".to_owned();
        r.push_str(env);
        r.push_str("'.\n");
        return r;
    }
    let mut r = "Updated ".to_owned();
    r.push_str(decimal(n as u128).as_str());
    r.push_str(" package(s) in '");
    r.push_str(env);
    r.push_str("'\n");
    r
}

/// The files of the old version that the new one no longer has.
pub open spec fn stale(old_files: Seq<Seq<char>>, new_files: Seq<Seq<char>>) -> Seq<Seq<char>> {
    kept(old_files, |f: Seq<char>| !new_files.contains(f))
}

/// The files of the old version that the new one no longer has.
pub fn stale_files(old_files: &Vec<String>, new_files: &Vec<String>) -> (r: Vec<String>)
    ensures
        texts(r@) == stale(texts(old_files@), texts(new_files@)),
{
    let ghost keep = |f: Seq<char>| !texts(new_files@).contains(f);
    let ghost all = texts(old_files@);
    let mut r: Vec<String> = Vec::new();
    let mut i: usize = 0;
    assert(texts(r@) =~= Seq::<Seq<char>>::empty());
    assert(all.take(0) =~= Seq::<Seq<char>>::empty());
    while i < old_files.len()
        invariant
            i <= old_files.len(),
            all == texts(old_files@),
            keep == (|f: Seq<char>| !texts(new_files@).contains(f)),
            texts(r@) == kept(all.take(i as int), keep),
        decreases old_files.len() - i,
    {
        proof {
            assert(all.take(i + 1).drop_last() =~= all.take(i as int));
            assert(all.take(i + 1).last() == old_files@[i as int]@);
        }
        if !among(new_files, old_files[i].as_str()) {
            let ghost before = texts(r@);
            r.push(old_files[i].clone());
            assert(texts(r@) =~= before.push(old_files@[i as int]@));
        }
        i = i + 1;
    }
    assert(all.take(all.len() as int) =~= all);
    r
}

/// An update prunes exactly the old files that the new version does not ship.
pub proof fn law_update_prunes_only_stale(
    old_files: Seq<Seq<char>>,
    new_files: Seq<Seq<char>>,
    f: Seq<char>,
)
    ensures
        stale(old_files, new_files).contains(f) <==> old_files.contains(f) && !new_files.contains(
            f,
        ),
{
    lemma_kept(old_files, |f: Seq<char>| !new_files.contains(f));
}

/// The file is recorded of another package.
pub open spec fn file_needed(
    records: Seq<RecordModel>,
    package: Seq<char>,
    f: Seq<char>,
) -> bool {
    exists|i: int|
        0 <= i < records.len() && (#[trigger] records[i]).package != package
            && records[i].files.contains(f)
}

/// Tells the files that no package but `package` has.
pub open spec fn only_of(records: Seq<RecordModel>, package: Seq<char>) -> spec_fn(
    Seq<char>,
) -> bool {
    |f: Seq<char>| !file_needed(records, package, f)
}

/// The recorded files of a package that no other package has.
pub open spec fn removable(
    files: Seq<Seq<char>>,
    records: Seq<RecordModel>,
    package: Seq<char>,
) -> Seq<Seq<char>> {
    kept(files, only_of(records, package))
}

fn needs_file(records: &Vec<InstalledFiles>, package: &str, f: &str) -> (r: bool)
    ensures
        r == file_needed(records_model(records@), package@, f@),
{
    let ghost rs = records_model(records@);
    let mut i: usize = 0;
    while i < records.len()
        invariant
            i <= records.len(),
            rs == records_model(records@),
            forall|j: int|
                0 <= j < i ==> (#[trigger] rs[j]).package == package@ || !rs[j].files.contains(f@),
        decreases records.len() - i,
    {
        let rec = &records[i];
        assert(rs[i as int] == rec@);
        if !same(rec.package.as_str(), package) && among(&rec.files, f) {
            return true;
        }
        i = i + 1;
    }
    false
}

/// The files to delete where a package leaves: those in its record that no
/// other package has. `records` is all that is recorded in the env.
pub fn removable_files(record: &InstalledFiles, records: &Vec<InstalledFiles>, package: &str) -> (r:
    Vec<String>)
    ensures
        texts(r@) == removable(record@.files, records_model(records@), package@),
{
    let ghost all = texts(record.files@);
    let ghost keep = only_of(records_model(records@), package@);
    let mut r: Vec<String> = Vec::new();
    let mut i: usize = 0;
    assert(texts(r@) =~= Seq::<Seq<char>>::empty());
    assert(all.take(0) =~= Seq::<Seq<char>>::empty());
    while i < record.files.len()
        invariant
            i <= record.files.len(),
            all == texts(record.files@),
            keep == only_of(records_model(records@), package@),
            texts(r@) == kept(all.take(i as int), keep),
        decreases record.files.len() - i,
    {
        let f = &record.files[i];
        proof {
            assert(all.take(i + 1).drop_last() =~= all.take(i as int));
            assert(all.take(i + 1).last() == f@);
        }
        if !needs_file(records, package, f.as_str()) {
            let ghost before = texts(r@);
            r.push(f.clone());
            assert(texts(r@) =~= before.push(f@));
        }
        i = i + 1;
    }
    assert(all.take(all.len() as int) =~= all);
    r
}

/// Removing a package never disturbs the files of another: exactly those files
/// of its record go that no other record lists.
pub proof fn law_removal_spares_other_packages(
    files: Seq<Seq<char>>,
    records: Seq<RecordModel>,
    package: Seq<char>,
    f: Seq<char>,
)
    ensures
        removable(files, records, package).contains(f) <==> files.contains(f) && (forall|i: int|
            0 <= i < records.len() && (#[trigger] records[i]).package != package
                ==> !records[i].files.contains(f)),
{
    lemma_kept(files, only_of(records, package));
}

/// An update deletes exactly the files that the old version had, that the new
/// one does not ship and that no other package has.
pub proof fn law_update_spares_other_packages(
    old_files: Seq<Seq<char>>,
    new_files: Seq<Seq<char>>,
    records: Seq<RecordModel>,
    package: Seq<char>,
    f: Seq<char>,
)
    ensures
        stale(removable(old_files, records, package), new_files).contains(f) <==> old_files.contains(
            f,
        ) && !new_files.contains(f) && !file_needed(records, package, f),
{
    lemma_kept(old_files, only_of(records, package));
    law_update_prunes_only_stale(removable(old_files, records, package), new_files, f);
}

// ---- pruning ----

/// `d` is a directory above the file `f`.
pub open spec fn is_ancestor(d: Seq<char>, f: Seq<char>) -> bool {
    0 < d.len() < f.len() && f[d.len() as int] == '/' && f.take(d.len() as int) == d
}

/// How many slashes stand in `d`.
pub open spec fn depth(d: Seq<char>) -> nat
    decreases d.len(),
{
    if d.len() == 0 {
        0
    } else if d.last() == '/' {
        depth(d.drop_last()) + 1
    } else {
        depth(d.drop_last())
    }
}

/// A directory that an env is created with.
pub open spec fn is_protected(d: Seq<char>) -> bool {
    skeleton().contains(d) || d == "windows"@ || d == "linux"@ || d == "macos"@
}

/// `a` is tried before `b`: the deeper first, and in the order of their names
/// those of the same depth.
pub open spec fn sooner(a: Seq<char>, b: Seq<char>) -> bool {
    depth(a) > depth(b) || (depth(a) == depth(b) && text_lt(a, b))
}

proof fn lemma_sooner(a: Seq<char>, b: Seq<char>, c: Seq<char>)
    ensures
        !sooner(a, a),
        sooner(a, b) && sooner(b, c) ==> sooner(a, c),
        a == b || sooner(a, b) || sooner(b, a),
{
    lemma_text_lt_irreflexive(a);
    lemma_text_lt_total(a, b);
    if text_lt(a, b) && text_lt(b, c) {
        lemma_text_lt_transitive(a, b, c);
    }
}

fn count_slashes(d: &str) -> (r: usize)
    ensures
        r == depth(d@),
{
    let v = chars_of(d);
    let mut n: usize = 0;
    let mut i: usize = 0;
    assert(v@.take(0) =~= Seq::<char>::empty());
    while i < v.len()
        invariant
            i <= v.len(),
            v@ == d@,
            n <= i,
            n == depth(v@.take(i as int)),
        decreases v.len() - i,
    {
        assert(v@.take(i + 1).drop_last() =~= v@.take(i as int));
        if v[i] == '/' {
            n = n + 1;
        }
        i = i + 1;
    }
    assert(v@.take(v@.len() as int) =~= v@);
    n
}

fn is_sooner(a: &str, b: &str) -> (r: bool)
    ensures
        r == sooner(a@, b@),
{
    let m = count_slashes(a);
    let n = count_slashes(b);
    m > n || (m == n && before(a, b))
}

fn is_skeleton(d: &str) -> (r: bool)
    ensures
        r == is_protected(d@),
{
    among(&crate::env::skeleton_dirs(), d) || same(d, "windows") || same(d, "linux") || same(
        d,
        "macos",
    )
}

/// Each item is tried before those after it.
pub open spec fn in_turn(s: Seq<Seq<char>>) -> bool {
    forall|i: int, j: int| 0 <= i < j < s.len() ==> sooner(#[trigger] s[i], #[trigger] s[j])
}

/// Put a directory in its place, unless it is there.
fn put_in_turn(v: &mut Vec<String>, d: String)
    requires
        in_turn(texts(old(v)@)),
    ensures
        in_turn(texts(final(v)@)),
        forall|x: Seq<char>|
            #![trigger texts(final(v)@).contains(x)]
            texts(final(v)@).contains(x) <==> texts(old(v)@).contains(x) || x == d@,
{
    let ghost s = texts(v@);
    let mut i: usize = 0;
    while i < v.len() && is_sooner(v[i].as_str(), d.as_str())
        invariant
            i <= v.len(),
            s == texts(v@),
            forall|j: int| 0 <= j < i ==> sooner(#[trigger] s[j], d@),
        decreases v.len() - i,
    {
        assert(s[i as int] == v@[i as int]@);
        i = i + 1;
    }
    if i < v.len() && same(v[i].as_str(), d.as_str()) {
        assert(s[i as int] == d@);
        assert(s.contains(d@));
        return;
    }
    let ghost x = d@;
    v.insert(i, d);
    proof {
        let t = texts(v@);
        assert(t =~= s.insert(i as int, x));
        if i < s.len() {
            lemma_sooner(s[i as int], x, x);
            assert(sooner(x, s[i as int]));
        }
        assert forall|a: int, b: int| 0 <= a < b < t.len() implies sooner(
            #[trigger] t[a],
            #[trigger] t[b],
        ) by {
            if a == i {
                assert(t[b] == s[b - 1]);
                if b - 1 > i {
                    assert(sooner(s[i as int], s[b - 1]));
                    lemma_sooner(x, s[i as int], s[b - 1]);
                }
            } else if b == i {
                assert(t[a] == s[a]);
            } else {
                let p = if a < i { a } else { a - 1 };
                let q = if b < i { b } else { b - 1 };
                assert(t[a] == s[p] && t[b] == s[q]);
                assert(sooner(s[p], s[q]));
            }
        }
        assert forall|y: Seq<char>|
            #![trigger t.contains(y)]
            t.contains(y) <==> s.contains(y) || y == x by {
            if t.contains(y) {
                let j = choose|j: int| 0 <= j < t.len() && t[j] == y;
                if j < i {
                    assert(s[j] == y);
                } else if j > i {
                    assert(s[j - 1] == y);
                }
            }
            if s.contains(y) {
                let j = choose|j: int| 0 <= j < s.len() && s[j] == y;
                if j < i {
                    assert(t[j] == y);
                } else {
                    assert(t[j + 1] == y);
                }
            }
            assert(t[i as int] == x);
        }
    }
}

/// `d` is above one of the first `n` files and no directory that an env is
/// created with.
pub open spec fn prunable(files: Seq<Seq<char>>, n: int, d: Seq<char>) -> bool {
    !is_protected(d) && exists|i: int| 0 <= i < n && is_ancestor(d, #[trigger] files[i])
}

/// The directories to remove, if they are empty, once these files are gone:
/// those above the files, deepest first, but neither the env root nor a
/// directory that an env is created with.
pub fn prune_empty_dirs(files: &Vec<String>) -> (r: Vec<String>)
    ensures
        in_turn(texts(r@)),
        forall|d: Seq<char>|
            #![trigger texts(r@).contains(d)]
            texts(r@).contains(d) <==> prunable(texts(files@), files@.len() as int, d),
{
    let ghost fs = texts(files@);
    let mut r: Vec<String> = Vec::new();
    let mut i: usize = 0;
    while i < files.len()
        invariant
            i <= files.len(),
            fs == texts(files@),
            in_turn(texts(r@)),
            forall|d: Seq<char>|
                #![trigger texts(r@).contains(d)]
                texts(r@).contains(d) <==> prunable(fs, i as int, d),
        decreases files.len() - i,
    {
        let v = chars_of(files[i].as_str());
        let ghost f = fs[i as int];
        let mut k: usize = 1;
        assert(f == v@);
        while k < v.len()
            invariant
                1 <= k,
                v@ == f,
                f == fs[i as int],
                i < fs.len(),
                k <= v.len() || v.len() == 0,
                in_turn(texts(r@)),
                forall|d: Seq<char>|
                    #![trigger texts(r@).contains(d)]
                    texts(r@).contains(d) <==> prunable(fs, i as int, d) || (!is_protected(d)
                        && is_ancestor(d, f) && d.len() < k),
            decreases v.len() - k,
        {
            let ghost before = texts(r@);
            let ghost e = f.take(k as int);
            if v[k] == '/' {
                let d = string_of(&v, 0, k);
                assert(d@ =~= e);
                if !is_skeleton(d.as_str()) {
                    put_in_turn(&mut r, d);
                }
            }
            proof {
                assert forall|d: Seq<char>|
                    #![trigger texts(r@).contains(d)]
                    texts(r@).contains(d) <==> prunable(fs, i as int, d) || (!is_protected(d)
                        && is_ancestor(d, f) && d.len() < k + 1) by {
                    assert(before.contains(d) <==> prunable(fs, i as int, d) || (!is_protected(d)
                        && is_ancestor(d, f) && d.len() < k));
                    if is_ancestor(d, f) && d.len() == k {
                        assert(d == e);
                    }
                    if f[k as int] == '/' {
                        assert(is_ancestor(e, f));
                    }
                }
            }
            k = k + 1;
        }
        proof {
            assert forall|d: Seq<char>|
                #![trigger texts(r@).contains(d)]
                texts(r@).contains(d) <==> prunable(fs, i + 1, d) by {
                if prunable(fs, i + 1, d) {
                    let j = choose|j: int| 0 <= j < i + 1 && is_ancestor(d, #[trigger] fs[j]);
                    if j < i {
                        assert(prunable(fs, i as int, d));
                    }
                }
                if prunable(fs, i as int, d) {
                    let j = choose|j: int| 0 <= j < i && is_ancestor(d, #[trigger] fs[j]);
                    assert(is_ancestor(d, fs[j]));
                }
                if is_ancestor(d, f) {
                    assert(is_ancestor(d, fs[i as int]));
                }
            }
        }
        i = i + 1;
    }
    r
}

proof fn lemma_depth_of_child(parent: Seq<char>, child: Seq<char>)
    requires
        is_ancestor(parent, child),
    ensures
        depth(parent) < depth(child),
{
    let n = parent.len() as int;
    lemma_depth_grows(child, n + 1);
    assert(child.take(n + 1).drop_last() =~= parent);
    assert(child.take(n + 1).last() == '/');
}

proof fn lemma_depth_grows(d: Seq<char>, n: int)
    requires
        0 <= n <= d.len(),
    ensures
        depth(d.take(n)) <= depth(d),
    decreases d.len(),
{
    if n < d.len() {
        assert(d.drop_last().take(n) =~= d.take(n));
        lemma_depth_grows(d.drop_last(), n);
    } else {
        assert(d.take(n) =~= d);
    }
}

/// A directory is tried before the directories above it.
pub proof fn law_children_before_parents(
    dirs: Seq<Seq<char>>,
    i: int,
    j: int,
)
    requires
        in_turn(dirs),
        0 <= i < dirs.len(),
        0 <= j < dirs.len(),
        is_ancestor(dirs[j], dirs[i]),
    ensures
        i < j,
{
    lemma_depth_of_child(dirs[j], dirs[i]);
    if j < i {
        assert(sooner(dirs[j], dirs[i]));
    }
}

// ---- configuration ----

/// A scope of activation blocks.
pub open spec fn is_scope(os: Seq<char>) -> bool {
    os == "all"@ || os == "windows"@ || os == "linux"@ || os == "macos"@
}

/// Why an edit of the configuration is refused.
#[derive(Debug, PartialEq, Eq)]
pub enum ConfigError {
    /// The scope is not one of those allowed.
    BadScope { os: String },
    /// The variable is not set there.
    NotSet { key: String, os: String },
    /// The path is not there.
    NotOnPath { path: String, os: String },
    /// A pair is not of the form `KEY=VALUE`.
    BadPair { pair: String },
    /// The restart policy is not one of those allowed.
    BadPolicy { word: String },
    /// There is no tool of that name.
    NoTool { tool: String },
}

/// What a configuration error says.
#[verifier::ext_equal]
pub enum ConfigErrorModel {
    BadScope { os: Seq<char> },
    NotSet { key: Seq<char>, os: Seq<char> },
    NotOnPath { path: Seq<char>, os: Seq<char> },
    BadPair { pair: Seq<char> },
    BadPolicy { word: Seq<char> },
    NoTool { tool: Seq<char> },
}

impl View for ConfigError {
    type V = ConfigErrorModel;

    open spec fn view(&self) -> ConfigErrorModel {
        match *self {
            ConfigError::BadScope { os } => ConfigErrorModel::BadScope { os: os@ },
            ConfigError::NotSet { key, os } => ConfigErrorModel::NotSet { key: key@, os: os@ },
            ConfigError::NotOnPath { path, os } => ConfigErrorModel::NotOnPath {
                path: path@,
                os: os@,
            },
            ConfigError::BadPair { pair } => ConfigErrorModel::BadPair { pair: pair@ },
            ConfigError::BadPolicy { word } => ConfigErrorModel::BadPolicy { word: word@ },
            ConfigError::NoTool { tool } => ConfigErrorModel::NoTool { tool: tool@ },
        }
    }
}

/// The text of a configuration error in the env called `name`.
pub open spec fn config_error_text(e: ConfigErrorModel, name: Seq<char>) -> Seq<char> {
    match e {
        ConfigErrorModel::BadScope { os } => "invalid --os '"@ + os
            + "'; expected one of: all, windows, linux, macos"@,
        ConfigErrorModel::NotSet { key, os } => "'"@ + key + "' is not set in ["@ + os
            + "] activation of '"@ + name + "'"@,
        ConfigErrorModel::NotOnPath { path, os } => "'"@ + path + "' is not in ["@ + os
            + "] PATH of '"@ + name + "'"@,
        ConfigErrorModel::BadPair { pair } => "--env-var must be KEY=VALUE, got '"@ + pair + "'"@,
        ConfigErrorModel::BadPolicy { word } => "invalid --restart '"@ + word
            + "'; expected one of: no, on-failure, always"@,
        ConfigErrorModel::NoTool { tool } => "'"@ + tool + "' is not a declared tool of '"@ + name
            + "'"@,
    }
}

impl ConfigError {
    /// The text of the error in the env called `name`.
    pub fn message(&self, name: &str) -> (r: String)
        ensures
            r@ == config_error_text(self@, name@),
    {
        match self {
            ConfigError::BadScope { os } => {
                let mut r = "invalid --os '".to_owned();
                r.push_str(os.as_str());
                r.push_str("'; expected one of: all, windows, linux, macos");
                r
            },
            ConfigError::NotSet { key, os } => {
                let mut r = "'".to_owned();
                r.push_str(key.as_str());
                r.push_str("' is not set in [");
                r.push_str(os.as_str());
                r.push_str("] activation of '");
                r.push_str(name);
                r.push_str("'");
                r
            },
            ConfigError::NotOnPath { path, os } => {
                let mut r = "'".to_owned();
                r.push_str(path.as_str());
                r.push_str("' is not in [");
                r.push_str(os.as_str());
                r.push_str("] PATH of '");
                r.push_str(name);
                r.push_str("'");
                r
            },
            ConfigError::BadPair { pair } => {
                let mut r = "--env-var must be KEY=VALUE, got '".to_owned();
                r.push_str(pair.as_str());
                r.push_str("'");
                r
            },
            ConfigError::BadPolicy { word } => {
                let mut r = "invalid --restart '".to_owned();
                r.push_str(word.as_str());
                r.push_str("'; expected one of: no, on-failure, always");
                r
            },
            ConfigError::NoTool { tool } => {
                let mut r = "'".to_owned();
                r.push_str(tool.as_str());
                r.push_str("' is not a declared tool of '");
                r.push_str(name);
                r.push_str("'");
                r
            },
        }
    }
}

/// Whether `os` is a scope of activation blocks; the error says that it is not.
pub fn check_os(os: &str) -> (r: Result<(), ConfigError>)
    ensures
        match r {
            Ok(()) => is_scope(os@),
            Err(e) => !is_scope(os@) && e@ == (ConfigErrorModel::BadScope { os: os@ }),
        },
{
    if same(os, "all") || same(os, "windows") || same(os, "linux") || same(os, "macos") {
        Ok(())
    } else {
        Err(ConfigError::BadScope { os: os.to_owned() })
    }
}

/// Blocks without the one of `os`, if that is bare.
pub open spec fn tidied(m: Map<Seq<char>, BlockModel>, os: Seq<char>) -> Map<
    Seq<char>,
    BlockModel,
> {
    if m.contains_key(os) && is_bare(m[os]) {
        m.remove(os)
    } else {
        m
    }
}

/// Drop the block of `os`, if it is bare.
pub fn prune_empty_block(activation: &mut StrMap<ActivationBlock>, os: &str)
    ensures
        final(activation)@ == tidied(old(activation)@, os@),
{
    let bare = match activation.get(os) {
        Some(b) => {
            assert(texts(b.path_prepend@).len() == b.path_prepend@.len());
            b.path_prepend.len() == 0 && b.env.is_empty()
        },
        None => false,
    };
    if bare {
        activation.remove(os);
    }
}

/// The block with the variable set.
pub open spec fn with_var(b: BlockModel, key: Seq<char>, value: Seq<char>) -> BlockModel {
    BlockModel { env: b.env.insert(key, value), ..b }
}

/// Set a variable in the activation of a scope.
pub fn config_set_env(m: &mut Manifest, key: &str, value: &str, os: &str) -> (r: Result<
    (),
    ConfigError,
>)
    ensures
        match r {
            Ok(()) => is_scope(os@) && final(m)@ == (ManifestModel {
                activation: old(m)@.activation.insert(
                    os@,
                    with_var(block_or_empty(old(m)@.activation, os@), key@, value@),
                ),
                ..old(m)@
            }),
            Err(e) => !is_scope(os@) && e@ == (ConfigErrorModel::BadScope { os: os@ }) && final(m)@
                == old(m)@,
        },
{
    if let Err(e) = check_os(os) {
        return Err(e);
    }
    let ghost start = m@.activation;
    let mut block = match m.activation.remove(os) {
        Some(b) => b,
        None => ActivationBlock::default(),
    };
    assert(block@ == block_or_empty(start, os@));
    block.env.insert(key.to_owned(), value.to_owned());
    m.activation.insert(os.to_owned(), block);
    assert(m@.activation =~= start.insert(
        os@,
        with_var(block_or_empty(start, os@), key@, value@),
    ));
    Ok(())
}

/// Blocks without the variable in the block of `os`, which goes if it is then
/// bare.
pub open spec fn without_var(
    m: Map<Seq<char>, BlockModel>,
    key: Seq<char>,
    os: Seq<char>,
) -> Map<Seq<char>, BlockModel> {
    tidied(m.insert(os, BlockModel { env: m[os].env.remove(key), ..m[os] }), os)
}

/// Unset a variable in the activation of a scope.
pub fn config_unset_env(m: &mut Manifest, key: &str, os: &str) -> (r: Result<(), ConfigError>)
    ensures
        match r {
            Ok(()) => {
                &&& is_scope(os@)
                &&& old(m)@.activation.contains_key(os@)
                &&& old(m)@.activation[os@].env.contains_key(key@)
                &&& final(m)@ == (ManifestModel {
                    activation: without_var(old(m)@.activation, key@, os@),
                    ..old(m)@
                })
            },
            Err(e) => {
                &&& final(m)@ == old(m)@
                &&& if !is_scope(os@) {
                    e@ == (ConfigErrorModel::BadScope { os: os@ })
                } else {
                    e@ == (ConfigErrorModel::NotSet { key: key@, os: os@ }) && !(
                    old(m)@.activation.contains_key(os@)
                        && old(m)@.activation[os@].env.contains_key(key@))
                }
            },
        },
{
    if let Err(e) = check_os(os) {
        return Err(e);
    }
    let ghost start = m@.activation;
    let set = match m.activation.get(os) {
        Some(b) => b.env.contains_key(key),
        None => false,
    };
    if !set {
        return Err(ConfigError::NotSet { key: key.to_owned(), os: os.to_owned() });
    }
    if let Some(b) = m.activation.remove(os) {
        let mut block = b;
        block.env.remove(key);
        m.activation.insert(os.to_owned(), block);
        assert(m@.activation =~= start.insert(
            os@,
            BlockModel { env: start[os@].env.remove(key@), ..start[os@] },
        ));
    }
    prune_empty_block(&mut m.activation, os);
    Ok(())
}

/// The block with the path at its end.
pub open spec fn with_path(b: BlockModel, path: Seq<char>) -> BlockModel {
    BlockModel { path_prepend: b.path_prepend.push(path), ..b }
}

/// Add a path to the activation of a scope; `false` where it is already there.
pub fn config_add_path(m: &mut Manifest, path: &str, os: &str) -> (r: Result<bool, ConfigError>)
    ensures
        match r {
            Ok(added) => {
                let b = block_or_empty(old(m)@.activation, os@);
                &&& is_scope(os@)
                &&& added == !b.path_prepend.contains(path@)
                &&& final(m)@ == (if added {
                    ManifestModel {
                        activation: old(m)@.activation.insert(os@, with_path(b, path@)),
                        ..old(m)@
                    }
                } else {
                    old(m)@
                })
            },
            Err(e) => !is_scope(os@) && e@ == (ConfigErrorModel::BadScope { os: os@ }) && final(m)@
                == old(m)@,
        },
{
    if let Err(e) = check_os(os) {
        return Err(e);
    }
    let ghost start = m@.activation;
    let ghost b0 = block_or_empty(start, os@);
    let there = match m.activation.get(os) {
        Some(b) => among(&b.path_prepend, path),
        None => false,
    };
    if there {
        return Ok(false);
    }
    let mut block = match m.activation.remove(os) {
        Some(b) => b,
        None => ActivationBlock::default(),
    };
    assert(block@ == b0);
    block.path_prepend.push(path.to_owned());
    assert(block@.path_prepend =~= b0.path_prepend.push(path@));
    m.activation.insert(os.to_owned(), block);
    assert(m@.activation =~= start.insert(os@, with_path(b0, path@)));
    Ok(true)
}

/// Holds of every text but `path`.
pub open spec fn other_than(path: Seq<char>) -> spec_fn(Seq<char>) -> bool {
    |p: Seq<char>| p != path
}

/// `s` without `path`.
pub open spec fn without_text(s: Seq<Seq<char>>, path: Seq<char>) -> Seq<Seq<char>> {
    kept(s, other_than(path))
}

/// Blocks without the path in the block of `os`, which goes if it is then bare.
pub open spec fn without_path(
    m: Map<Seq<char>, BlockModel>,
    path: Seq<char>,
    os: Seq<char>,
) -> Map<Seq<char>, BlockModel> {
    tidied(
        m.insert(
            os,
            BlockModel {
                path_prepend: without_text(m[os].path_prepend, path),
                ..m[os]
            },
        ),
        os,
    )
}

fn drop_path(v: &Vec<String>, path: &str) -> (r: Vec<String>)
    ensures
        texts(r@) == without_text(texts(v@), path@),
{
    let ghost keep = other_than(path@);
    let ghost all = texts(v@);
    let mut r: Vec<String> = Vec::new();
    let mut i: usize = 0;
    assert(texts(r@) =~= Seq::<Seq<char>>::empty());
    assert(all.take(0) =~= Seq::<Seq<char>>::empty());
    while i < v.len()
        invariant
            i <= v.len(),
            all == texts(v@),
            keep == other_than(path@),
            texts(r@) == kept(all.take(i as int), keep),
        decreases v.len() - i,
    {
        proof {
            assert(all.take(i + 1).drop_last() =~= all.take(i as int));
            assert(all.take(i + 1).last() == v@[i as int]@);
        }
        if !same(v[i].as_str(), path) {
            let ghost before = texts(r@);
            r.push(v[i].clone());
            assert(texts(r@) =~= before.push(v@[i as int]@));
        }
        i = i + 1;
    }
    assert(all.take(all.len() as int) =~= all);
    r
}

/// Remove a path from the activation of a scope.
pub fn config_remove_path(m: &mut Manifest, path: &str, os: &str) -> (r: Result<(), ConfigError>)
    ensures
        match r {
            Ok(()) => {
                &&& is_scope(os@)
                &&& old(m)@.activation.contains_key(os@)
                &&& old(m)@.activation[os@].path_prepend.contains(path@)
                &&& final(m)@ == (ManifestModel {
                    activation: without_path(old(m)@.activation, path@, os@),
                    ..old(m)@
                })
            },
            Err(e) => {
                &&& final(m)@ == old(m)@
                &&& if !is_scope(os@) {
                    e@ == (ConfigErrorModel::BadScope { os: os@ })
                } else {
                    e@ == (ConfigErrorModel::NotOnPath { path: path@, os: os@ }) && !(
                    old(m)@.activation.contains_key(os@)
                        && old(m)@.activation[os@].path_prepend.contains(path@))
                }
            },
        },
{
    if let Err(e) = check_os(os) {
        return Err(e);
    }
    let ghost start = m@.activation;
    let there = match m.activation.get(os) {
        Some(b) => among(&b.path_prepend, path),
        None => false,
    };
    if !there {
        return Err(ConfigError::NotOnPath { path: path.to_owned(), os: os.to_owned() });
    }
    if let Some(b) = m.activation.remove(os) {
        let block = ActivationBlock { path_prepend: drop_path(&b.path_prepend, path), env: b.env };
        m.activation.insert(os.to_owned(), block);
        assert(m@.activation =~= start.insert(
            os@,
            BlockModel {
                path_prepend: without_text(start[os@].path_prepend, path@),
                ..start[os@]
            },
        ));
    }
    prune_empty_block(&mut m.activation, os);
    Ok(())
}

/// The variables that `KEY=VALUE` pairs set, or the first that is none.
pub open spec fn pairs_env(pairs: Seq<Seq<char>>) -> Result<
    Map<Seq<char>, Seq<char>>,
    Seq<char>,
>
    decreases pairs.len(),
{
    if pairs.len() == 0 {
        Ok(Map::empty())
    } else {
        match pairs_env(pairs.drop_last()) {
            Err(p) => Err(p),
            Ok(m) => match cut(pairs.last(), '=') {
                Some((k, v)) => Ok(m.insert(k, v)),
                None => Err(pairs.last()),
            },
        }
    }
}

proof fn lemma_pairs_prefix(pairs: Seq<Seq<char>>, n: int)
    requires
        0 <= n <= pairs.len(),
        pairs_env(pairs.take(n)) is Err,
    ensures
        pairs_env(pairs) == pairs_env(pairs.take(n)),
    decreases pairs.len(),
{
    if n < pairs.len() {
        assert(pairs.drop_last().take(n) =~= pairs.take(n));
        lemma_pairs_prefix(pairs.drop_last(), n);
    } else {
        assert(pairs.take(n) =~= pairs);
    }
}

fn read_pairs(pairs: &Vec<String>) -> (r: Result<StrMap<String>, ConfigError>)
    ensures
        match r {
            Ok(m) => pairs_env(texts(pairs@)) == Ok::<_, Seq<char>>(m@),
            Err(e) => pairs_env(texts(pairs@)) matches Err(p) && e@ == (ConfigErrorModel::BadPair {
                pair: p,
            }),
        },
{
    let ghost all = texts(pairs@);
    let mut m: StrMap<String> = StrMap::new();
    let mut i: usize = 0;
    while i < pairs.len()
        invariant
            i <= pairs.len(),
            all == texts(pairs@),
            pairs_env(all.take(i as int)) == Ok::<_, Seq<char>>(m@),
        decreases pairs.len() - i,
    {
        proof {
            assert(all.take(i + 1).drop_last() =~= all.take(i as int));
            assert(all.take(i + 1).last() == pairs@[i as int]@);
        }
        match split_once(pairs[i].as_str(), '=') {
            Some((k, v)) => {
                m.insert(k, v);
            },
            None => {
                proof {
                    lemma_pairs_prefix(all, i + 1);
                }
                return Err(ConfigError::BadPair { pair: pairs[i].clone() });
            },
        }
        i = i + 1;
    }
    assert(all.take(all.len() as int) =~= all);
    Ok(m)
}

/// Declare a tool, in place of one of the same name.
pub fn config_add_tool(
    m: &mut Manifest,
    tool: &str,
    run: &str,
    args: &Vec<String>,
    pairs: &Vec<String>,
    restart: &str,
) -> (r: Result<(), ConfigError>)
    ensures
        match r {
            Ok(()) => {
                &&& pairs_env(texts(pairs@)) is Ok
                &&& crate::manifest::policy_of(restart@) is Some
                &&& final(m)@ == (ManifestModel {
                    tools: old(m)@.tools.insert(
                        tool@,
                        ToolModel {
                            run: run@,
                            args: texts(args@),
                            env: pairs_env(texts(pairs@))->Ok_0,
                            restart: crate::manifest::policy_of(restart@)->0,
                        },
                    ),
                    ..old(m)@
                })
            },
            Err(e) => {
                &&& final(m)@ == old(m)@
                &&& match pairs_env(texts(pairs@)) {
                    Err(p) => e@ == (ConfigErrorModel::BadPair { pair: p }),
                    Ok(_) => crate::manifest::policy_of(restart@) is None && e@ == (
                    ConfigErrorModel::BadPolicy { word: restart@ }),
                }
            },
        },
{
    let env = match read_pairs(pairs) {
        Err(e) => {
            return Err(e);
        },
        Ok(x) => x,
    };
    let policy = match RestartPolicy::parse(restart) {
        None => {
            return Err(ConfigError::BadPolicy { word: restart.to_owned() });
        },
        Some(p) => p,
    };
    m.tools.insert(
        tool.to_owned(),
        Tool { run: run.to_owned(), args: copy_texts(args), env, restart: policy },
    );
    Ok(())
}

/// Remove a declared tool.
pub fn config_remove_tool(m: &mut Manifest, tool: &str) -> (r: Result<(), ConfigError>)
    ensures
        match r {
            Ok(()) => old(m)@.tools.contains_key(tool@) && final(m)@ == (ManifestModel {
                tools: old(m)@.tools.remove(tool@),
                ..old(m)@
            }),
            Err(e) => !old(m)@.tools.contains_key(tool@) && e@ == (ConfigErrorModel::NoTool {
                tool: tool@,
            }) && final(m)@ == old(m)@,
        },
{
    if !m.tools.contains_key(tool) {
        return Err(ConfigError::NoTool { tool: tool.to_owned() });
    }
    m.tools.remove(tool);
    Ok(())
}

/// Unsetting a variable that was just set leaves the activation without it, and
/// as it was where it was not set before and the block was not bare.
pub proof fn law_unset_undoes_set(
    m: Map<Seq<char>, BlockModel>,
    key: Seq<char>,
    value: Seq<char>,
    os: Seq<char>,
)
    requires
        !block_or_empty(m, os).env.contains_key(key),
        m.contains_key(os) ==> !is_bare(m[os]),
    ensures
        without_var(m.insert(os, with_var(block_or_empty(m, os), key, value)), key, os) == m,
{
    let b = block_or_empty(m, os);
    assert(b.env.insert(key, value).remove(key) =~= b.env);
    let s = m.insert(os, with_var(b, key, value));
    let t = s.insert(os, BlockModel { env: s[os].env.remove(key), ..s[os] });
    if m.contains_key(os) {
        assert(t =~= m);
    } else {
        assert(t.remove(os) =~= m);
    }
}

/// Removing a path that was just added leaves the activation as it was, where
/// the path was not there before and the block was not bare.
pub proof fn law_remove_path_undoes_add(
    m: Map<Seq<char>, BlockModel>,
    path: Seq<char>,
    os: Seq<char>,
)
    requires
        !block_or_empty(m, os).path_prepend.contains(path),
        m.contains_key(os) ==> !is_bare(m[os]),
    ensures
        without_path(m.insert(os, with_path(block_or_empty(m, os), path)), path, os) == m,
{
    let b = block_or_empty(m, os);
    let keep = other_than(path);
    assert(b.path_prepend.push(path).drop_last() =~= b.path_prepend);
    assert forall|i: int| 0 <= i < b.path_prepend.len() implies keep(
        #[trigger] b.path_prepend[i],
    ) by {
        assert(b.path_prepend.contains(b.path_prepend[i]));
    }
    lemma_kept_all(b.path_prepend, keep);
    let all = b.path_prepend.push(path);
    assert(all.last() == path && !keep(path));
    assert(kept(all, keep) == kept(all.drop_last(), keep));
    let s = m.insert(os, with_path(b, path));
    let t = s.insert(
        os,
        BlockModel { path_prepend: without_text(s[os].path_prepend, path), ..s[os] },
    );
    if m.contains_key(os) {
        assert(t =~= m);
    } else {
        assert(t.remove(os) =~= m);
    }
}

/// An edit of an env's configuration, or a look at it.
#[derive(Debug, PartialEq, Eq)]
pub enum ConfigAction {
    SetEnv { key: String, value: String, os: String },
    UnsetEnv { key: String, os: String },
    AddPath { path: String, os: String },
    RemovePath { path: String, os: String },
    AddTool {
        name: String,
        run: String,
        args: Vec<String>,
        env_vars: Vec<String>,
        restart: String,
    },
    RemoveTool { name: String },
    Show,
}

/// What a configuration action says.
pub enum ActionModel {
    SetEnv { key: Seq<char>, value: Seq<char>, os: Seq<char> },
    UnsetEnv { key: Seq<char>, os: Seq<char> },
    AddPath { path: Seq<char>, os: Seq<char> },
    RemovePath { path: Seq<char>, os: Seq<char> },
    AddTool {
        name: Seq<char>,
        run: Seq<char>,
        args: Seq<Seq<char>>,
        env_vars: Seq<Seq<char>>,
        restart: Seq<char>,
    },
    RemoveTool { name: Seq<char> },
    Show,
}

impl View for ConfigAction {
    type V = ActionModel;

    open spec fn view(&self) -> ActionModel {
        match *self {
            ConfigAction::SetEnv { key, value, os } => ActionModel::SetEnv {
                key: key@,
                value: value@,
                os: os@,
            },
            ConfigAction::UnsetEnv { key, os } => ActionModel::UnsetEnv { key: key@, os: os@ },
            ConfigAction::AddPath { path, os } => ActionModel::AddPath { path: path@, os: os@ },
            ConfigAction::RemovePath { path, os } => ActionModel::RemovePath {
                path: path@,
                os: os@,
            },
            ConfigAction::AddTool { name, run, args, env_vars, restart } => ActionModel::AddTool {
                name: name@,
                run: run@,
                args: texts(args@),
                env_vars: texts(env_vars@),
                restart: restart@,
            },
            ConfigAction::RemoveTool { name } => ActionModel::RemoveTool { name: name@ },
            ConfigAction::Show => ActionModel::Show,
        }
    }
}

/// The manifest after an action, or why the action is refused.
pub open spec fn configured(m: ManifestModel, a: ActionModel) -> Result<
    ManifestModel,
    ConfigErrorModel,
> {
    match a {
        ActionModel::SetEnv { key, value, os } => if !is_scope(os) {
            Err(ConfigErrorModel::BadScope { os })
        } else {
            Ok(
                ManifestModel {
                    activation: m.activation.insert(
                        os,
                        with_var(block_or_empty(m.activation, os), key, value),
                    ),
                    ..m
                },
            )
        },
        ActionModel::UnsetEnv { key, os } => if !is_scope(os) {
            Err(ConfigErrorModel::BadScope { os })
        } else if !block_or_empty(m.activation, os).env.contains_key(key) {
            Err(ConfigErrorModel::NotSet { key, os })
        } else {
            Ok(ManifestModel { activation: without_var(m.activation, key, os), ..m })
        },
        ActionModel::AddPath { path, os } => if !is_scope(os) {
            Err(ConfigErrorModel::BadScope { os })
        } else if block_or_empty(m.activation, os).path_prepend.contains(path) {
            Ok(m)
        } else {
            Ok(
                ManifestModel {
                    activation: m.activation.insert(
                        os,
                        with_path(block_or_empty(m.activation, os), path),
                    ),
                    ..m
                },
            )
        },
        ActionModel::RemovePath { path, os } => if !is_scope(os) {
            Err(ConfigErrorModel::BadScope { os })
        } else if !block_or_empty(m.activation, os).path_prepend.contains(path) {
            Err(ConfigErrorModel::NotOnPath { path, os })
        } else {
            Ok(ManifestModel { activation: without_path(m.activation, path, os), ..m })
        },
        ActionModel::AddTool { name, run, args, env_vars, restart } => match pairs_env(env_vars) {
            Err(pair) => Err(ConfigErrorModel::BadPair { pair }),
            Ok(env) => match crate::manifest::policy_of(restart) {
                None => Err(ConfigErrorModel::BadPolicy { word: restart }),
                Some(p) => Ok(
                    ManifestModel {
                        tools: m.tools.insert(name, ToolModel { run, args, env, restart: p }),
                        ..m
                    },
                ),
            },
        },
        ActionModel::RemoveTool { name } => if !m.tools.contains_key(name) {
            Err(ConfigErrorModel::NoTool { tool: name })
        } else {
            Ok(ManifestModel { tools: m.tools.remove(name), ..m })
        },
        ActionModel::Show => Ok(m),
    }
}

/// What an action that is not refused tells, in the env called `name` with the
/// manifest `m`.
pub open spec fn configured_text(name: Seq<char>, m: ManifestModel, a: ActionModel) -> Seq<char> {
    match a {
        ActionModel::SetEnv { key, value, os } => "Set "@ + key + " in ["@ + os
            + "] activation of '"@ + name + "'\n"@,
        ActionModel::UnsetEnv { key, os } => "Unset "@ + key + " from ["@ + os
            + "] activation of '"@ + name + "'\n"@,
        ActionModel::AddPath { path, os } => if block_or_empty(
            m.activation,
            os,
        ).path_prepend.contains(path) {
            "'"@ + path + "' is already in ["@ + os + "] PATH of '"@ + name + "'\n"@
        } else {
            "Added "@ + path + " to ["@ + os + "] PATH of '"@ + name + "'\n"@
        },
        ActionModel::RemovePath { path, os } => "Removed "@ + path + " from ["@ + os
            + "] PATH of '"@ + name + "'\n"@,
        ActionModel::AddTool { name: tool, run, args, env_vars, restart } => "Added tool '"@ + tool
            + "' to '"@ + name + "' (run: "@ + run + ")\n"@,
        ActionModel::RemoveTool { name: tool } => "Removed tool '"@ + tool + "' from '"@ + name
            + "'\n"@,
        ActionModel::Show => crate::report::config_text(name, m),
    }
}

/// The text of an edit to what a scope holds.
fn scope_text(a: &str, what: &str, b: &str, os: &str, c: &str, name: &str) -> (r: String)
    ensures
        r@ == a@ + what@ + b@ + os@ + c@ + name@ + "'\n"@,
{
    let mut r = a.to_owned();
    r.push_str(what);
    r.push_str(b);
    r.push_str(os);
    r.push_str(c);
    r.push_str(name);
    r.push_str("'\n");
    r
}

/// Carry out an action on the manifest of the env called `name`, and tell what
/// was done.
pub fn config_dispatch(m: &mut Manifest, name: &str, action: &ConfigAction) -> (r: Result<
    String,
    ConfigError,
>)
    ensures
        match r {
            Ok(text) => configured(old(m)@, action@) == Ok::<_, ConfigErrorModel>(final(m)@)
                && text@ == configured_text(name@, old(m)@, action@),
            Err(e) => configured(old(m)@, action@) == Err::<ManifestModel, _>(e@) && final(m)@
                == old(m)@,
        },
{
    match action {
        ConfigAction::SetEnv { key, value, os } => {
            if let Err(e) = config_set_env(m, key.as_str(), value.as_str(), os.as_str()) {
                return Err(e);
            }
            Ok(scope_text("Set ", key.as_str(), " in [", os.as_str(), "] activation of '", name))
        },
        ConfigAction::UnsetEnv { key, os } => {
            if let Err(e) = config_unset_env(m, key.as_str(), os.as_str()) {
                return Err(e);
            }
            Ok(
                scope_text(
                    "Unset ",
                    key.as_str(),
                    " from [",
                    os.as_str(),
                    "] activation of '",
                    name,
                ),
            )
        },
        ConfigAction::AddPath { path, os } => match config_add_path(
            m,
            path.as_str(),
            os.as_str(),
        ) {
            Err(e) => Err(e),
            Ok(true) => Ok(
                scope_text("Added ", path.as_str(), " to [", os.as_str(), "] PATH of '", name),
            ),
            Ok(false) => Ok(
                scope_text(
                    "'",
                    path.as_str(),
                    "' is already in [",
                    os.as_str(),
                    "] PATH of '",
                    name,
                ),
            ),
        },
        ConfigAction::RemovePath { path, os } => {
            if let Err(e) = config_remove_path(m, path.as_str(), os.as_str()) {
                return Err(e);
            }
            Ok(scope_text("Removed ", path.as_str(), " from [", os.as_str(), "] PATH of '", name))
        },
        ConfigAction::AddTool { name: tool, run, args, env_vars, restart } => {
            if let Err(e) = config_add_tool(
                m,
                tool.as_str(),
                run.as_str(),
                args,
                env_vars,
                restart.as_str(),
            ) {
                return Err(e);
            }
            let mut r = "Added tool '".to_owned();
            r.push_str(tool.as_str());
            r.push_str("' to '");
            r.push_str(name);
            r.push_str("' (run: ");
            r.push_str(run.as_str());
            r.push_str(")\n");
            Ok(r)
        },
        ConfigAction::RemoveTool { name: tool } => {
            if let Err(e) = config_remove_tool(m, tool.as_str()) {
                return Err(e);
            }
            let mut r = "Removed tool '".to_owned();
            r.push_str(tool.as_str());
            r.push_str("' from '");
            r.push_str(name);
            r.push_str("'\n");
            Ok(r)
        },
        ConfigAction::Show => Ok(crate::report::config_show(name, m)),
    }
}

// ---- shells and places ----

/// The shell that a word stands for.
pub open spec fn shell_of(s: Seq<char>, ps_modules: bool, os: Os) -> Option<Shell> {
    if s == "posix"@ || s == "bash"@ || s == "zsh"@ || s == "sh"@ {
        Some(Shell::Posix)
    } else if s == "pwsh"@ || s == "powershell"@ {
        Some(Shell::PowerShell)
    } else if s == "auto"@ {
        Some(
            if ps_modules && os == Os::Windows {
                Shell::PowerShell
            } else {
                Shell::Posix
            },
        )
    } else {
        None
    }
}

/// The shell that a word stands for; `auto` is detected.
pub fn parse_shell(s: &str, ps_modules: bool, os: Os) -> (r: Option<Shell>)
    ensures
        r == shell_of(s@, ps_modules, os),
{
    if same(s, "posix") || same(s, "bash") || same(s, "zsh") || same(s, "sh") {
        Some(Shell::Posix)
    } else if same(s, "pwsh") || same(s, "powershell") {
        Some(Shell::PowerShell)
    } else if same(s, "auto") {
        Some(Shell::detect(ps_modules, os))
    } else {
        None
    }
}

/// Register the env at `path` under the given name, else under its own. The
/// name that was used is returned.
pub fn register(reg: &mut Registry, manifest: &Manifest, name: Option<&str>, path: &str) -> (r:
    Result<String, RegistryError>)
    ensures
        ({
            let n = match name {
                Some(n) => n@,
                None => manifest@.name,
            };
            if old(reg)@.contains_key(n) {
                r == Err::<String, _>(RegistryError::AlreadyRegistered) && final(reg)@ == old(reg)@
            } else {
                (r matches Ok(s) && s@ == n) && final(reg)@ == old(reg)@.insert(n, path@)
            }
        }),
{
    let n = match name {
        Some(n) => n.to_owned(),
        None => manifest.name.clone(),
    };
    match reg.insert(n.as_str(), path) {
        Err(e) => Err(e),
        Ok(()) => Ok(n),
    }
}

/// Whether the directory of an env may be deleted: only one that has a manifest
/// may, so that a wrong entry in the registry costs no other directory. The
/// error is the text to show.
pub fn check_removal(path: &str, has_manifest: bool) -> (r: Result<(), String>)
    ensures
        match r {
            Ok(()) => has_manifest,
            Err(e) => !has_manifest && e@ == "refusing to delete "@ + path@ + ": no "@
                + MANIFEST_FILE@
                + " found (not a toolbox env). Use `unregister` to drop it from the registry instead."@,
        },
{
    if has_manifest {
        return Ok(());
    }
    let mut e = "refusing to delete ".to_owned();
    e.push_str(path);
    e.push_str(": no ");
    e.push_str(MANIFEST_FILE);
    e.push_str(
        " found (not a toolbox env). Use `unregister` to drop it from the registry instead.",
    );
    Err(e)
}

/// Whether an env has to be relocated before it is used: it has files that
/// carry a prefix, and was not last used where it is now. `here` tells whether
/// the last prefix, if there is one, is the env's path.
pub fn needs_relocation(index: &RelocateIndex, last: Option<&str>, here: bool) -> (r: bool)
    ensures
        r == (index@.len() > 0 && !(last is Some && here)),
{
    index.entries.len() > 0 && !(last.is_some() && here)
}

/// The name of a new env: as given, else the name of its directory.
pub fn init_name(name: Option<&str>, dir_name: Option<&str>) -> (r: Option<String>)
    ensures
        opt_text(r) == (match (name, dir_name) {
            (Some(n), _) => Some(n@),
            (None, Some(d)) => Some(d@),
            (None, None) => None,
        }),
{
    match (name, dir_name) {
        (Some(n), _) => Some(n.to_owned()),
        (None, Some(d)) => Some(d.to_owned()),
        (None, None) => None,
    }
}

// ---- what an install and an uninstall do to a manifest ----

/// `r` is made of the items of `s` at the positions `at`, in order.
pub open spec fn selects<T>(s: Seq<T>, r: Seq<T>, at: Seq<int>) -> bool {
    &&& at.len() == r.len()
    &&& forall|i: int| 0 <= i < at.len() ==> 0 <= #[trigger] at[i] < s.len() && r[i] == s[at[i]]
    &&& forall|i: int, j: int| 0 <= i < j < at.len() ==> #[trigger] at[i] < #[trigger] at[j]
}

/// What is kept of a list is selected from it.
pub proof fn lemma_kept_selects<T>(s: Seq<T>, keep: spec_fn(T) -> bool) -> (at: Seq<int>)
    ensures
        selects(s, kept(s, keep), at),
        forall|k: int|
            #![trigger at.contains(k)]
            0 <= k < s.len() ==> (at.contains(k) <==> keep(s[k])),
    decreases s.len(),
{
    if s.len() == 0 {
        Seq::empty()
    } else {
        let t = s.drop_last();
        let last = s.len() - 1;
        let before = lemma_kept_selects(t, keep);
        let r = kept(s, keep);
        let at = if keep(s.last()) {
            before.push(last)
        } else {
            before
        };
        assert forall|i: int| 0 <= i < at.len() implies 0 <= #[trigger] at[i] < s.len() && r[i]
            == s[at[i]] by {
            if i < before.len() {
                assert(at[i] == before[i]);
                assert(t[before[i]] == s[at[i]]);
                assert(kept(t, keep)[i] == r[i]);
            }
        }
        assert forall|i: int, j: int| 0 <= i < j < at.len() implies #[trigger] at[i]
            < #[trigger] at[j] by {
            assert(at[i] == before[i]);
            if j < before.len() {
                assert(at[j] == before[j]);
            }
        }
        assert forall|k: int|
            #![trigger at.contains(k)]
            0 <= k < s.len() implies (at.contains(k) <==> keep(s[k])) by {
            if k < last {
                assert(t[k] == s[k]);
                if before.contains(k) {
                    let i = choose|i: int| 0 <= i < before.len() && before[i] == k;
                    assert(at[i] == k);
                }
                if at.contains(k) {
                    let i = choose|i: int| 0 <= i < at.len() && at[i] == k;
                    assert(before[i] == k);
                }
                assert(before.contains(k) <==> keep(t[k]));
            } else {
                if keep(s[k]) {
                    assert(at[at.len() - 1] == k);
                }
                if at.contains(k) && !keep(s[k]) {
                    let i = choose|i: int| 0 <= i < at.len() && at[i] == k;
                    assert(before[i] == k);
                }
            }
        }
        at
    }
}

/// After an uninstall the manifest lists the packages of every other name, all of
/// them and in their order, wherever in the list they stood, and no package of
/// the name that was uninstalled. The env's own name, version and description
/// stay.
pub proof fn law_uninstalled_package_is_gone(
    m: ManifestModel,
    package: Seq<char>,
    record: RecordModel,
    records: Seq<RecordModel>,
)
    ensures
        forall|i: int|
            0 <= i < uninstalled_manifest(m, package, record, records).packages.len() ==> (
            #[trigger] uninstalled_manifest(m, package, record, records).packages[i]).name
                != package,
        exists|at: Seq<int>| #[trigger]
            selects(m.packages, uninstalled_manifest(m, package, record, records).packages, at)
                && forall|k: int|
                0 <= k < m.packages.len() && (#[trigger] m.packages[k]).name != package
                    ==> at.contains(k),
        forall|p: PackageModel|
            p.name != package ==> (uninstalled_manifest(
                m,
                package,
                record,
                records,
            ).packages.contains(p) <==> #[trigger] m.packages.contains(p)),
        uninstalled_manifest(m, package, record, records).name == m.name,
        uninstalled_manifest(m, package, record, records).version == m.version,
        uninstalled_manifest(m, package, record, records).description == m.description,
{
    let r = uninstalled_manifest(m, package, record, records);
    let keep = |p: PackageModel| p.name != package;
    assert(r.packages == kept(m.packages, keep));
    lemma_kept(m.packages, keep);
    let at = lemma_kept_selects(m.packages, keep);
    assert forall|i: int| 0 <= i < r.packages.len() implies (#[trigger] r.packages[i]).name
        != package by {
        assert(r.packages.contains(r.packages[i]));
    }
    assert forall|k: int|
        0 <= k < m.packages.len() && (#[trigger] m.packages[k]).name != package implies at.contains(
        k,
    ) by {
        assert(keep(m.packages[k]));
    }
    assert(selects(m.packages, r.packages, at));
}

/// A package other than `package` has a record that sets the variable `k` for the
/// OS.
pub open spec fn other_sets(
    records: Seq<RecordModel>,
    package: Seq<char>,
    os: Seq<char>,
    k: Seq<char>,
) -> bool {
    exists|i: int|
        0 <= i < records.len() && (#[trigger] records[i]).package != package
            && records[i].activation.contains_key(os)
            && records[i].activation[os].env.contains_key(k)
}

/// A package other than `package` has a record that prepends the path for the OS.
pub open spec fn other_prepends(
    records: Seq<RecordModel>,
    package: Seq<char>,
    os: Seq<char>,
    p: Seq<char>,
) -> bool {
    exists|i: int|
        0 <= i < records.len() && (#[trigger] records[i]).package != package
            && records[i].activation.contains_key(os)
            && records[i].activation[os].path_prepend.contains(p)
}

/// A variable of the env is gone after an uninstall exactly where the package set
/// it for that OS, it still has the value that the package gave it, and no other
/// package sets it; every other variable keeps its value.
pub proof fn law_uninstall_takes_back_variables(
    m: ManifestModel,
    package: Seq<char>,
    record: RecordModel,
    records: Seq<RecordModel>,
    os: Seq<char>,
    k: Seq<char>,
)
    requires
        m.activation.contains_key(os),
        m.activation[os].env.contains_key(k),
    ensures
        ({
            let after = uninstalled_manifest(m, package, record, records).activation;
            let there = after.contains_key(os) && after[os].env.contains_key(k);
            &&& !there <==> record.activation.contains_key(os)
                && record.activation[os].env.contains_key(k) && m.activation[os].env[k]
                == record.activation[os].env[k] && !other_sets(records, package, os, k)
            &&& there ==> after[os].env[k] == m.activation[os].env[k]
        }),
{
    let after = uninstalled_manifest(m, package, record, records).activation;
    lemma_others(records, package, os, k, k);
    if record.activation.contains_key(os) {
        let b = reverted_block(m.activation[os], record.activation[os], records, package, os);
        if is_bare(b) {
            assert(!b.env.contains_key(k));
        }
    }
}

proof fn lemma_others(
    records: Seq<RecordModel>,
    package: Seq<char>,
    os: Seq<char>,
    k: Seq<char>,
    p: Seq<char>,
)
    ensures
        var_needed(records, package, os, k) <==> other_sets(records, package, os, k),
        path_needed(records, package, os, p) <==> other_prepends(records, package, os, p),
{
    if other_sets(records, package, os, k) {
        let i = choose|i: int|
            0 <= i < records.len() && (#[trigger] records[i]).package != package
                && records[i].activation.contains_key(os)
                && records[i].activation[os].env.contains_key(k);
        assert(sets_var(records[i], package, os, k));
    }
    if other_prepends(records, package, os, p) {
        let i = choose|i: int|
            0 <= i < records.len() && (#[trigger] records[i]).package != package
                && records[i].activation.contains_key(os)
                && records[i].activation[os].path_prepend.contains(p);
        assert(adds_path(records[i], package, os, p));
    }
}

/// A path of the env is gone after an uninstall exactly where the package
/// prepended it for that OS and no other package does; the paths that stay keep
/// their order.
pub proof fn law_uninstall_takes_back_paths(
    m: ManifestModel,
    package: Seq<char>,
    record: RecordModel,
    records: Seq<RecordModel>,
    os: Seq<char>,
    i: int,
)
    requires
        m.activation.contains_key(os),
        0 <= i < m.activation[os].path_prepend.len(),
    ensures
        ({
            let after = uninstalled_manifest(m, package, record, records).activation;
            let p = m.activation[os].path_prepend[i];
            let there = after.contains_key(os) && after[os].path_prepend.contains(p);
            &&& !there <==> record.activation.contains_key(os)
                && record.activation[os].path_prepend.contains(p) && !other_prepends(
                records,
                package,
                os,
                p,
            )
            &&& there ==> exists|at: Seq<int>| #[trigger]
                selects(m.activation[os].path_prepend, after[os].path_prepend, at) && at.contains(i)
        }),
{
    let after = uninstalled_manifest(m, package, record, records).activation;
    let all = m.activation[os].path_prepend;
    let p = all[i];
    lemma_others(records, package, os, p, p);
    assert(all.contains(p));
    if record.activation.contains_key(os) {
        let c = record.activation[os];
        let keep = |p: Seq<char>| !path_dropped(c, records, package, os, p);
        let b = reverted_block(m.activation[os], c, records, package, os);
        assert(b.path_prepend == kept(all, keep));
        lemma_kept(all, keep);
        let at = lemma_kept_selects(all, keep);
        assert(b.path_prepend.contains(p) <==> keep(p));
        if is_bare(b) {
            assert(!b.path_prepend.contains(p));
        } else {
            assert(after.contains_key(os) && after[os] == b);
            if keep(p) {
                assert(at.contains(i));
                assert(selects(all, after[os].path_prepend, at));
            }
        }
    } else {
        let at = Seq::new(all.len(), |j: int| j);
        assert(after.contains_key(os) && after[os] == m.activation[os]);
        assert(selects(all, after[os].path_prepend, at));
        assert(at[i] == i);
    }
}

/// An uninstall adds no variable and no path, changes nothing for an OS that the
/// package does not contribute to, and leaves no block with neither paths nor
/// variables where it took something back.
pub proof fn law_uninstall_adds_nothing(
    m: ManifestModel,
    package: Seq<char>,
    record: RecordModel,
    records: Seq<RecordModel>,
    os: Seq<char>,
    k: Seq<char>,
)
    ensures
        ({
            let after = uninstalled_manifest(m, package, record, records).activation;
            &&& after.contains_key(os) ==> m.activation.contains_key(os)
            &&& after.contains_key(os) && after[os].env.contains_key(k)
                ==> m.activation[os].env.contains_key(k)
            &&& after.contains_key(os) && after[os].path_prepend.contains(k)
                ==> m.activation[os].path_prepend.contains(k)
            &&& m.activation.contains_key(os) && !record.activation.contains_key(os)
                ==> after.contains_key(os) && after[os] == m.activation[os]
            &&& after.contains_key(os) && record.activation.contains_key(os)
                ==> after[os].path_prepend.len() > 0 || after[os].env != Map::<
                Seq<char>,
                Seq<char>,
            >::empty()
        }),
{
    if m.activation.contains_key(os) && record.activation.contains_key(os) {
        let c = record.activation[os];
        lemma_kept(
            m.activation[os].path_prepend,
            |p: Seq<char>| !path_dropped(c, records, package, os, p),
        );
    }
}

/// A tool of the env is gone after an uninstall exactly where the package
/// contributed it, it is still as the package contributed it, and no other package
/// contributes a tool of that name; every other tool stays as it is.
pub proof fn law_uninstall_takes_back_tools(
    m: ManifestModel,
    package: Seq<char>,
    record: RecordModel,
    records: Seq<RecordModel>,
    t: Seq<char>,
)
    ensures
        ({
            let after = uninstalled_manifest(m, package, record, records).tools;
            &&& after.contains_key(t) <==> m.tools.contains_key(t) && !(record.tools.contains_key(t)
                && m.tools[t] == record.tools[t] && forall|i: int|
                0 <= i < records.len() && (#[trigger] records[i]).package != package
                    ==> !records[i].tools.contains_key(t))
            &&& after.contains_key(t) ==> after[t] == m.tools[t]
        }),
{
}

/// An installed package is listed once: in place of the first of its name, or
/// after the others where there was none. The env's own name, version and
/// description stay.
pub proof fn law_installed_package_is_listed(m: ManifestModel, a: RecordModel, i: int)
    requires
        0 <= i <= m.packages.len(),
        i < m.packages.len() ==> m.packages[i].name == a.package,
        forall|j: int| 0 <= j < i ==> (#[trigger] m.packages[j]).name != a.package,
    ensures
        ({
            let p = PackageModel { name: a.package, version: a.version, source: a.source };
            let after = installed_manifest(m, a);
            &&& i < m.packages.len() ==> after.packages == m.packages.update(i, p)
            &&& i == m.packages.len() ==> after.packages == m.packages.push(p)
            &&& after.name == m.name
            &&& after.version == m.version
            &&& after.description == m.description
        }),
{
    let f = first_named(m.packages, a.package);
    lemma_first_named(m.packages, a.package);
    if f < i {
        assert(m.packages[f].name != a.package);
    }
    if i < f {
        assert(m.packages[i].name != a.package);
    }
}

/// An install brings every path, every variable and every tool of the package
/// into the env. Variables and tools of the package take the place of those of
/// the same name; all else that the env had stays, and nothing else comes.
pub proof fn law_install_contributes(
    m: ManifestModel,
    a: RecordModel,
    os: Seq<char>,
    k: Seq<char>,
    t: Seq<char>,
)
    ensures
        ({
            let after = installed_manifest(m, a);
            let had = m.activation.contains_key(os);
            let adds = a.activation.contains_key(os);
            let has = after.activation.contains_key(os);
            &&& has <==> had || adds
            &&& has ==> (after.activation[os].env.contains_key(k) <==> (had
                && m.activation[os].env.contains_key(k)) || (adds
                && a.activation[os].env.contains_key(k)))
            &&& adds && a.activation[os].env.contains_key(k) ==> after.activation[os].env[k]
                == a.activation[os].env[k]
            &&& had && m.activation[os].env.contains_key(k) && !(adds
                && a.activation[os].env.contains_key(k)) ==> after.activation[os].env[k]
                == m.activation[os].env[k]
            &&& has ==> (after.activation[os].path_prepend.contains(k) <==> (had
                && m.activation[os].path_prepend.contains(k)) || (adds
                && a.activation[os].path_prepend.contains(k)))
            &&& had ==> m.activation[os].path_prepend.is_prefix_of(
                after.activation[os].path_prepend,
            )
            &&& had && !adds ==> after.activation[os] == m.activation[os]
            &&& after.tools.contains_key(t) <==> m.tools.contains_key(t) || a.tools.contains_key(t)
            &&& a.tools.contains_key(t) ==> after.tools[t] == a.tools[t]
            &&& m.tools.contains_key(t) && !a.tools.contains_key(t) ==> after.tools[t] == m.tools[t]
        }),
{
    let b = block_or_empty(m.activation, os);
    if a.activation.contains_key(os) {
        let more = a.activation[os].path_prepend;
        let all = appended(b.path_prepend, more);
        lemma_appended(b.path_prepend, more);
        assert(b.path_prepend =~= all.take(b.path_prepend.len() as int));
        assert forall|i: int| 0 <= i < b.path_prepend.len() implies b.path_prepend[i] == all[i] by {
            assert(all.take(b.path_prepend.len() as int)[i] == all[i]);
        }
        assert(b.path_prepend =~= all.subrange(0, b.path_prepend.len() as int));
    }
    if m.activation.contains_key(os) {
        let l = m.activation[os].path_prepend;
        assert(l =~= l.subrange(0, l.len() as int));
    }
}

/// The paths of a package come in its order, each once and only where it is not
/// there yet: one path more at the end of its list comes last.
pub proof fn law_paths_are_added_in_order(b: BlockModel, a: BlockModel, path: Seq<char>)
    ensures
        merged_block(b, BlockModel { path_prepend: Seq::empty(), ..a }).path_prepend
            == b.path_prepend,
        merged_block(b, BlockModel { path_prepend: a.path_prepend.push(path), ..a }).path_prepend
            == (if b.path_prepend.contains(path) || a.path_prepend.contains(path) {
            merged_block(b, a).path_prepend
        } else {
            merged_block(b, a).path_prepend.push(path)
        }),
{
    lemma_appended(b.path_prepend, a.path_prepend);
    assert(a.path_prepend.push(path).drop_last() =~= a.path_prepend);
}

// ---- what an update fetches and removes ----

/// A source that was recorded as `file://` and a directory is that directory, and
/// any other is a reference.
pub proof fn law_recorded_source(dir: Seq<char>, source: Seq<char>)
    ensures
        source_for("file://"@ + dir) == SourceModel::Directory(dir),
        !"file://"@.is_prefix_of(source) ==> source_for(source) == SourceModel::Reference(source),
{
    reveal_strlit("file://");
    let s = "file://"@ + dir;
    assert(s.subrange(0, 7) =~= "file://"@);
    assert(s.skip(7) =~= dir);
    if occurs_at(source, "file://"@, 0) {
        assert(source.subrange(0, 7) =~= "file://"@);
        assert("file://"@ =~= source.subrange(0, "file://"@.len() as int));
    }
}

/// An update of all packages fetches each of them, in order, from its own source;
/// one of a named package fetches that package alone, and nothing is fetched
/// where no package has the name.
pub proof fn law_update_fetches(s: Seq<PackageModel>, p: Seq<char>, i: int)
    requires
        0 <= i <= s.len(),
        i < s.len() ==> s[i].name == p,
        forall|j: int| 0 <= j < i ==> (#[trigger] s[j]).name != p,
    ensures
        updates(s, None) is Some,
        updates(s, None)->0.len() == s.len(),
        i < s.len() ==> updates(s, None)->0[i] == (p, source_for(s[i].source)),
        i < s.len() ==> updates(s, Some(p)) == Some(seq![(p, source_for(s[i].source))]),
        i == s.len() ==> updates(s, Some(p)) is None,
        forall|j: int|
            0 <= j < s.len() ==> (#[trigger] updates(s, None)->0[j]) == (
                s[j].name,
                source_for(s[j].source),
            ),
{
    let f = first_named(s, p);
    lemma_first_named(s, p);
    if f < i {
        assert(s[f].name != p);
    }
    if i < f {
        assert(s[i].name != p);
    }
}

/// The files that go with a package, or with its old version, are each of its
/// record and keep their order.
pub proof fn law_removed_files_are_recorded(
    files: Seq<Seq<char>>,
    new_files: Seq<Seq<char>>,
    records: Seq<RecordModel>,
    package: Seq<char>,
)
    ensures
        exists|at: Seq<int>| #[trigger]
            selects(files, removable(files, records, package), at) && forall|k: int|
                0 <= k < files.len() ==> (#[trigger] at.contains(k) <==> forall|i: int|
                    0 <= i < records.len() && (#[trigger] records[i]).package != package
                        ==> !records[i].files.contains(files[k])),
        exists|at: Seq<int>| #[trigger]
            selects(files, stale(files, new_files), at) && forall|k: int|
                0 <= k < files.len() ==> (#[trigger] at.contains(k) <==> !new_files.contains(
                    files[k],
                )),
{
    let keep = only_of(records, package);
    let at = lemma_kept_selects(files, keep);
    assert(selects(files, removable(files, records, package), at));
    assert forall|k: int| 0 <= k < files.len() implies (#[trigger] at.contains(k) <==> forall|
        i: int,
    |
        0 <= i < records.len() && (#[trigger] records[i]).package != package
            ==> !records[i].files.contains(files[k])) by {
        assert(keep(files[k]) == !file_needed(records, package, files[k]));
    }
    let fresh = |f: Seq<char>| !new_files.contains(f);
    let bt = lemma_kept_selects(files, fresh);
    assert(stale(files, new_files) == kept(files, fresh));
    assert(selects(files, stale(files, new_files), bt));
    assert forall|k: int| 0 <= k < files.len() implies (#[trigger] bt.contains(k)
        <==> !new_files.contains(files[k])) by {
        assert(fresh(files[k]) == !new_files.contains(files[k]));
    }
}

// ---- which directories are pruned ----

/// A directory is pruned exactly where it is above one of the files and none that
/// every env has.
pub proof fn law_only_own_directories_are_pruned(files: Seq<Seq<char>>, d: Seq<char>)
    ensures
        prunable(files, files.len() as int, d) <==> d.len() > 0 && (exists|i: int|
            0 <= i < files.len() && d.push('/').is_prefix_of(#[trigger] files[i])) && d
            != "windows"@ && d != "linux"@ && d != "macos"@ && d != "windows/bin"@ && d
            != "windows/lib"@ && d != "windows/share"@ && d != "linux/bin"@ && d != "linux/lib"@
            && d != "linux/share"@ && d != "macos/bin"@ && d != "macos/lib"@ && d != "macos/share"@
            && d != "share"@ && d != ".toolbox"@,
{
    let k = skeleton();
    assert(k.contains(d) <==> d == "windows/bin"@ || d == "windows/lib"@ || d == "windows/share"@
        || d == "linux/bin"@ || d == "linux/lib"@ || d == "linux/share"@ || d == "macos/bin"@ || d
        == "macos/lib"@ || d == "macos/share"@ || d == "share"@ || d == ".toolbox"@) by {
        assert(k[0] == "windows/bin"@ && k[1] == "windows/lib"@ && k[2] == "windows/share"@);
        assert(k[3] == "linux/bin"@ && k[4] == "linux/lib"@ && k[5] == "linux/share"@);
        assert(k[6] == "macos/bin"@ && k[7] == "macos/lib"@ && k[8] == "macos/share"@);
        assert(k[9] == "share"@ && k[10] == ".toolbox"@ && k.len() == 11);
    }
    assert forall|i: int| 0 <= i < files.len() && d.len() > 0 implies (d.push('/').is_prefix_of(
        #[trigger] files[i],
    ) <==> is_ancestor(d, files[i])) by {
        let f = files[i];
        let n = d.len() as int;
        if d.push('/').is_prefix_of(f) {
            assert(d.push('/') =~= f.subrange(0, n + 1));
            assert(f.subrange(0, n + 1)[n] == '/');
            assert(f.take(n) =~= f.subrange(0, n + 1).take(n));
            assert(d.push('/').take(n) =~= d);
        }
        if is_ancestor(d, f) {
            assert(d.push('/') =~= f.subrange(0, n + 1)) by {
                assert forall|x: int| 0 <= x < n implies d[x] == f[x] by {
                    assert(f.take(n)[x] == f[x]);
                }
            }
        }
    }
    if prunable(files, files.len() as int, d) {
        let i = choose|i: int| 0 <= i < files.len() && is_ancestor(d, #[trigger] files[i]);
        assert(d.push('/').is_prefix_of(files[i]));
    }
}

/// What is below a directory is tried before the directory.
pub proof fn law_below_comes_first(dirs: Seq<Seq<char>>, i: int, j: int)
    requires
        in_turn(dirs),
        0 <= i < dirs.len(),
        0 <= j < dirs.len(),
        dirs[j].len() > 0,
        dirs[j].push('/').is_prefix_of(dirs[i]),
    ensures
        i < j,
{
    let (d, f) = (dirs[j], dirs[i]);
    let n = d.len() as int;
    assert(d.push('/') =~= f.subrange(0, n + 1));
    assert(f.subrange(0, n + 1)[n] == '/');
    assert(f.take(n) =~= f.subrange(0, n + 1).take(n));
    assert(d.push('/').take(n) =~= d);
    law_children_before_parents(dirs, i, j);
}

// ---- what a configuration action does ----

/// The scopes are those four.
pub proof fn law_scopes(os: Seq<char>)
    ensures
        is_scope(os) <==> os == "all"@ || os == "windows"@ || os == "linux"@ || os == "macos"@,
{
}

/// Setting a variable gives it that value in the scope that is named. No other
/// variable, no path, no other scope, no tool and no package changes. It is
/// refused for what is no scope, and only then.
pub proof fn law_set_env(
    m: ManifestModel,
    key: Seq<char>,
    value: Seq<char>,
    os: Seq<char>,
    k: Seq<char>,
    o: Seq<char>,
)
    ensures
        match configured(m, ActionModel::SetEnv { key, value, os }) {
            Err(e) => !(os == "all"@ || os == "windows"@ || os == "linux"@ || os == "macos"@) && e
                == (ConfigErrorModel::BadScope { os }),
            Ok(r) => {
                let had = m.activation.contains_key(os);
                &&& os == "all"@ || os == "windows"@ || os == "linux"@ || os == "macos"@
                &&& r.activation.contains_key(os)
                &&& r.activation[os].env.contains_key(key) && r.activation[os].env[key] == value
                &&& k != key ==> (r.activation[os].env.contains_key(k) <==> had
                    && m.activation[os].env.contains_key(k))
                &&& k != key && had && m.activation[os].env.contains_key(k)
                    ==> r.activation[os].env[k] == m.activation[os].env[k]
                &&& had ==> r.activation[os].path_prepend == m.activation[os].path_prepend
                &&& !had ==> r.activation[os].path_prepend.len() == 0
                &&& o != os ==> (r.activation.contains_key(o) <==> m.activation.contains_key(o))
                &&& o != os && m.activation.contains_key(o) ==> r.activation[o] == m.activation[o]
                &&& r.tools == m.tools && r.packages == m.packages && r.name == m.name && r.version
                    == m.version && r.description == m.description
            },
        },
{
}

/// Unsetting a variable takes it out of the scope that is named, and the block of
/// that scope where nothing is left in it. Nothing else changes. It is refused for
/// what is no scope and where the variable is not set there, and only then.
pub proof fn law_unset_env(
    m: ManifestModel,
    key: Seq<char>,
    os: Seq<char>,
    k: Seq<char>,
    o: Seq<char>,
)
    ensures
        ({
            let scope = os == "all"@ || os == "windows"@ || os == "linux"@ || os == "macos"@;
            let set = m.activation.contains_key(os) && m.activation[os].env.contains_key(key);
            match configured(m, ActionModel::UnsetEnv { key, os }) {
                Err(e) => if !scope {
                    e == (ConfigErrorModel::BadScope { os })
                } else {
                    !set && e == (ConfigErrorModel::NotSet { key, os })
                },
                Ok(r) => {
                    let has = r.activation.contains_key(os);
                    &&& scope && set
                    &&& has ==> !r.activation[os].env.contains_key(key)
                    &&& k != key && m.activation[os].env.contains_key(k) ==> has
                        && r.activation[os].env.contains_key(k) && r.activation[os].env[k]
                        == m.activation[os].env[k]
                    &&& has && r.activation[os].env.contains_key(k)
                        ==> m.activation[os].env.contains_key(k)
                    &&& m.activation[os].path_prepend.len() > 0 ==> has
                    &&& has ==> r.activation[os].path_prepend == m.activation[os].path_prepend
                    &&& has ==> r.activation[os].path_prepend.len() > 0 || r.activation[os].env
                        != Map::<Seq<char>, Seq<char>>::empty()
                    &&& o != os ==> (r.activation.contains_key(o) <==> m.activation.contains_key(o))
                    &&& o != os && m.activation.contains_key(o) ==> r.activation[o]
                        == m.activation[o]
                    &&& r.tools == m.tools && r.packages == m.packages && r.name == m.name
                        && r.version == m.version && r.description == m.description
                },
            }
        }),
{
    if m.activation.contains_key(os) && m.activation[os].env.contains_key(k) && k != key {
        assert(m.activation[os].env.remove(key).contains_key(k));
    }
}

/// Adding a path puts it after those that the scope has, unless it is there
/// already. Nothing else changes. It is refused for what is no scope, and only
/// then.
pub proof fn law_add_path(m: ManifestModel, path: Seq<char>, os: Seq<char>, o: Seq<char>)
    ensures
        match configured(m, ActionModel::AddPath { path, os }) {
            Err(e) => !(os == "all"@ || os == "windows"@ || os == "linux"@ || os == "macos"@) && e
                == (ConfigErrorModel::BadScope { os }),
            Ok(r) => {
                let had = m.activation.contains_key(os);
                let there = had && m.activation[os].path_prepend.contains(path);
                &&& os == "all"@ || os == "windows"@ || os == "linux"@ || os == "macos"@
                &&& there ==> r == m
                &&& !there ==> r.activation.contains_key(os)
                &&& !there && had ==> r.activation[os].path_prepend
                    == m.activation[os].path_prepend.push(path) && r.activation[os].env
                    == m.activation[os].env
                &&& !had ==> r.activation[os].path_prepend == seq![path] && r.activation[os].env
                    == Map::<Seq<char>, Seq<char>>::empty()
                &&& o != os ==> (r.activation.contains_key(o) <==> m.activation.contains_key(o))
                &&& o != os && m.activation.contains_key(o) ==> r.activation[o] == m.activation[o]
                &&& r.tools == m.tools && r.packages == m.packages && r.name == m.name && r.version
                    == m.version && r.description == m.description
            },
        },
{
    assert(Seq::<Seq<char>>::empty().push(path) =~= seq![path]);
}

/// Removing a path takes it out of the scope, wherever it stands there, and the
/// block where nothing is left in it; the other paths stay in their order. It is
/// refused for what is no scope and where the path is not there, and only then.
pub proof fn law_remove_path(
    m: ManifestModel,
    path: Seq<char>,
    os: Seq<char>,
    p: Seq<char>,
    o: Seq<char>,
)
    ensures
        ({
            let scope = os == "all"@ || os == "windows"@ || os == "linux"@ || os == "macos"@;
            let there = m.activation.contains_key(os) && m.activation[os].path_prepend.contains(
                path,
            );
            match configured(m, ActionModel::RemovePath { path, os }) {
                Err(e) => if !scope {
                    e == (ConfigErrorModel::BadScope { os })
                } else {
                    !there && e == (ConfigErrorModel::NotOnPath { path, os })
                },
                Ok(r) => {
                    let has = r.activation.contains_key(os);
                    &&& scope && there
                    &&& has ==> !r.activation[os].path_prepend.contains(path)
                    &&& p != path && m.activation[os].path_prepend.contains(p) ==> has
                        && r.activation[os].path_prepend.contains(p)
                    &&& has ==> exists|at: Seq<int>|
                        selects(
                            m.activation[os].path_prepend,
                            r.activation[os].path_prepend,
                            at,
                        )
                    &&& m.activation[os].env != Map::<Seq<char>, Seq<char>>::empty() ==> has
                    &&& has ==> r.activation[os].env == m.activation[os].env
                    &&& has ==> r.activation[os].path_prepend.len() > 0 || r.activation[os].env
                        != Map::<Seq<char>, Seq<char>>::empty()
                    &&& o != os ==> (r.activation.contains_key(o) <==> m.activation.contains_key(o))
                    &&& o != os && m.activation.contains_key(o) ==> r.activation[o]
                        == m.activation[o]
                    &&& r.tools == m.tools && r.packages == m.packages && r.name == m.name
                        && r.version == m.version && r.description == m.description
                },
            }
        }),
{
    if m.activation.contains_key(os) {
        let all = m.activation[os].path_prepend;
        let keep = other_than(path);
        lemma_kept(all, keep);
        let at = lemma_kept_selects(all, keep);
        assert(kept(all, keep).contains(path) <==> all.contains(path) && keep(path));
        assert(kept(all, keep).contains(p) <==> all.contains(p) && keep(p));
        assert(selects(all, without_text(all, path), at));
    }
}

/// Declaring a tool puts it there as it is described, over one of the same name,
/// and removing it takes it away; no other tool changes, nor anything else.
pub proof fn law_tools_are_configured(
    m: ManifestModel,
    name: Seq<char>,
    run: Seq<char>,
    args: Seq<Seq<char>>,
    env_vars: Seq<Seq<char>>,
    restart: Seq<char>,
    t: Seq<char>,
)
    ensures
        match configured(m, ActionModel::AddTool { name, run, args, env_vars, restart }) {
            Ok(r) => {
                &&& r.tools.contains_key(name)
                &&& r.tools[name].run == run && r.tools[name].args == args
                &&& pairs_env(env_vars) == Ok::<_, Seq<char>>(r.tools[name].env)
                &&& restart == "no"@ && r.tools[name].restart == RestartPolicy::No || restart
                    == "on-failure"@ && r.tools[name].restart == RestartPolicy::OnFailure || restart
                    == "always"@ && r.tools[name].restart == RestartPolicy::Always
                &&& t != name ==> (r.tools.contains_key(t) <==> m.tools.contains_key(t))
                &&& t != name && m.tools.contains_key(t) ==> r.tools[t] == m.tools[t]
                &&& r.activation == m.activation && r.packages == m.packages && r.name == m.name
                    && r.version == m.version && r.description == m.description
            },
            Err(ConfigErrorModel::BadPair { pair }) => pairs_env(env_vars) == Err::<
                Map<Seq<char>, Seq<char>>,
                _,
            >(pair),
            Err(ConfigErrorModel::BadPolicy { word }) => pairs_env(env_vars) is Ok && word
                == restart && restart != "no"@ && restart != "on-failure"@ && restart != "always"@,
            Err(_) => false,
        },
        match configured(m, ActionModel::RemoveTool { name }) {
            Ok(r) => {
                &&& m.tools.contains_key(name)
                &&& !r.tools.contains_key(name)
                &&& t != name ==> (r.tools.contains_key(t) <==> m.tools.contains_key(t))
                &&& t != name && m.tools.contains_key(t) ==> r.tools[t] == m.tools[t]
                &&& r.activation == m.activation && r.packages == m.packages && r.name == m.name
                    && r.version == m.version && r.description == m.description
            },
            Err(e) => !m.tools.contains_key(name) && e == (ConfigErrorModel::NoTool { tool: name }),
        },
        configured(m, ActionModel::Show) == Ok::<_, ConfigErrorModel>(m),
{
}

/// A pair sets what stands before its first `=` to what stands after it, over
/// pairs before it; the first pair without `=` is the error.
pub proof fn law_pairs(pairs: Seq<Seq<char>>, k: Seq<char>, v: Seq<char>, bad: Seq<char>)
    requires
        !k.contains('='),
        !bad.contains('='),
    ensures
        pairs_env(Seq::empty()) == Ok::<_, Seq<char>>(Map::<Seq<char>, Seq<char>>::empty()),
        pairs_env(pairs) is Ok ==> pairs_env(pairs.push(k.push('=') + v)) == Ok::<_, Seq<char>>(
            pairs_env(pairs)->Ok_0.insert(k, v),
        ),
        pairs_env(pairs) is Ok ==> pairs_env(pairs.push(bad)) == Err::<
            Map<Seq<char>, Seq<char>>,
            _,
        >(bad),
        pairs_env(pairs) is Err ==> pairs_env(pairs.push(k)) == pairs_env(pairs),
{
    let p = k.push('=') + v;
    assert(pairs.push(p).drop_last() =~= pairs);
    assert(pairs.push(bad).drop_last() =~= pairs);
    assert(pairs.push(k).drop_last() =~= pairs);
    crate::text::law_cut_at_the_first(p, '=');
    crate::text::law_cut_at_the_first(bad, '=');
    assert(p[k.len() as int] == '=');
    assert(p.contains('='));
    match cut(p, '=') {
        Some((a, b)) => {
            assert(a.push('=') + b == p);
            assert(a.len() == k.len()) by {
                if a.len() < k.len() {
                    assert((a.push('=') + b)[a.len() as int] == '=');
                    assert(k[a.len() as int] == '=');
                    assert(k.contains(k[a.len() as int]));
                } else if a.len() > k.len() {
                    assert(p[k.len() as int] == a[k.len() as int]);
                    assert(a.contains(a[k.len() as int]));
                }
            }
            assert(a =~= p.take(k.len() as int));
            assert(k =~= p.take(k.len() as int));
            assert(b =~= p.skip(k.len() as int + 1));
            assert(v =~= p.skip(k.len() as int + 1));
        },
        None => {},
    }
    match cut(bad, '=') {
        Some((a, b)) => {
            assert((a.push('=') + b)[a.len() as int] == '=');
            assert(bad.contains(bad[a.len() as int]));
        },
        None => {},
    }
}

/// The shells that are named are those, and `auto` is PowerShell where its module
/// path is set on Windows, else POSIX.
pub proof fn law_shell_names(s: Seq<char>, ps_modules: bool, os: Os)
    ensures
        s == "posix"@ || s == "bash"@ || s == "zsh"@ || s == "sh"@ ==> shell_of(s, ps_modules, os)
            == Some(Shell::Posix),
        s == "pwsh"@ || s == "powershell"@ ==> shell_of(s, ps_modules, os) == Some(
            Shell::PowerShell,
        ),
        s == "auto"@ ==> shell_of(s, ps_modules, os) == Some(
            if os == Os::Windows && ps_modules {
                Shell::PowerShell
            } else {
                Shell::Posix
            },
        ),
        shell_of(s, ps_modules, os) is Some ==> s == "posix"@ || s == "bash"@ || s == "zsh"@ || s
            == "sh"@ || s == "pwsh"@ || s == "powershell"@ || s == "auto"@,
{
    reveal_strlit("posix");
    reveal_strlit("bash");
    reveal_strlit("zsh");
    reveal_strlit("sh");
    reveal_strlit("pwsh");
    reveal_strlit("powershell");
    reveal_strlit("auto");
    assert("posix"@.len() == 5 && "bash"@.len() == 4 && "zsh"@.len() == 3 && "sh"@.len() == 2);
    assert("pwsh"@.len() == 4 && "powershell"@.len() == 10 && "auto"@.len() == 4);
    assert("pwsh"@[0] == 'p' && "bash"@[0] == 'b' && "auto"@[0] == 'a');
}

/// What records say is what each of them says, in order, and so for the targets of
/// an update and for the sources of packages.
pub proof fn law_lists_say_all(
    records: Seq<InstalledFiles>,
    targets: Seq<UpdateTarget>,
    packages: Seq<PackageModel>,
    i: int,
)
    ensures
        records_model(records).len() == records.len(),
        0 <= i < records.len() ==> records_model(records)[i] == records[i]@,
        target_models(targets).len() == targets.len(),
        0 <= i < targets.len() ==> target_models(targets)[i] == (
            targets[i].name@,
            targets[i].source@,
        ),
        sources_of(packages).len() == packages.len(),
        0 <= i < packages.len() ==> sources_of(packages)[i] == (
            packages[i].name,
            packages[i].source,
        ),
{
}

/// What arrives is recorded with its name, version and source, every file in order,
/// and all that it contributes.
pub proof fn law_arrival_says_all(a: Arrival, i: int)
    ensures
        a@.package == a.name@,
        a@.version == a.version@,
        a@.source == a.source@,
        a@.files.len() == a.files@.len(),
        0 <= i < a.files@.len() ==> a@.files[i] == a.files@[i]@,
        a@.activation == a.activation@,
        a@.tools == a.tools@,
{
}

/// An edit is told with what it changed, where, and in which env; a path that is
/// there already is told to be.
pub proof fn law_edits_are_told(
    name: Seq<char>,
    m: ManifestModel,
    key: Seq<char>,
    value: Seq<char>,
    os: Seq<char>,
)
    ensures
        configured_text(name, m, ActionModel::SetEnv { key, value, os }) == "Set "@ + key + " in ["@
            + os + "] activation of '"@ + name + "'\n"@,
        configured_text(name, m, ActionModel::UnsetEnv { key, os }) == "Unset "@ + key + " from ["@
            + os + "] activation of '"@ + name + "'\n"@,
        m.activation.contains_key(os) && m.activation[os].path_prepend.contains(key)
            ==> configured_text(name, m, ActionModel::AddPath { path: key, os }) == "'"@ + key
            + "' is already in ["@ + os + "] PATH of '"@ + name + "'\n"@,
        !(m.activation.contains_key(os) && m.activation[os].path_prepend.contains(key))
            ==> configured_text(name, m, ActionModel::AddPath { path: key, os }) == "Added "@ + key
            + " to ["@ + os + "] PATH of '"@ + name + "'\n"@,
        configured_text(name, m, ActionModel::RemovePath { path: key, os }) == "Removed "@ + key
            + " from ["@ + os + "] PATH of '"@ + name + "'\n"@,
        configured_text(name, m, ActionModel::RemoveTool { name: key }) == "Removed tool '"@ + key
            + "' from '"@ + name + "'\n"@,
        configured_text(name, m, ActionModel::Show) == crate::report::config_text(name, m),
{
}

/// A refused edit is told with what it was about: the scope, the variable, the
/// path, the pair, the policy or the tool, and the env.
pub proof fn law_refused_edits_are_told(x: Seq<char>, os: Seq<char>, name: Seq<char>)
    ensures
        config_error_text(ConfigErrorModel::BadScope { os }, name) == "invalid --os '"@ + os
            + "'; expected one of: all, windows, linux, macos"@,
        config_error_text(ConfigErrorModel::NotSet { key: x, os }, name) == "'"@ + x
            + "' is not set in ["@ + os + "] activation of '"@ + name + "'"@,
        config_error_text(ConfigErrorModel::NotOnPath { path: x, os }, name) == "'"@ + x
            + "' is not in ["@ + os + "] PATH of '"@ + name + "'"@,
        config_error_text(ConfigErrorModel::BadPair { pair: x }, name)
            == "--env-var must be KEY=VALUE, got '"@ + x + "'"@,
        config_error_text(ConfigErrorModel::BadPolicy { word: x }, name) == "invalid --restart '"@
            + x + "'; expected one of: no, on-failure, always"@,
        config_error_text(ConfigErrorModel::NoTool { tool: x }, name) == "'"@ + x
            + "' is not a declared tool of '"@ + name + "'"@,
{
}

} // verus!

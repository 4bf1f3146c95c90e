//! A configuration on disk: the files that saving leaves, and the configuration
//! that loading them gives.

use crate::config::Config;
use crate::config::SavePlan;
use crate::config::SettingsModel;
use crate::config::TargetFileModel;
use crate::config::TargetModel;
use crate::config;
use crate::text;
use vstd::prelude::*;

verus! {

/// What is on disk: the settings file, and the targets' files by their stems.
#[verifier::ext_equal]
pub struct StoredModel {
    pub settings: SettingsModel,
    pub files: Map<Seq<char>, TargetFileModel>,
}

/// The files with those of `put` written, one after the other.
pub open spec fn with_files(
    files: Map<Seq<char>, TargetFileModel>,
    put: Seq<(Seq<char>, TargetFileModel)>,
) -> Map<Seq<char>, TargetFileModel>
    decreases put.len(),
{
    if put.len() == 0 {
        files
    } else {
        with_files(files, put.drop_last()).insert(put.last().0, put.last().1)
    }
}

/// What is on disk once a plan was carried out.
pub open spec fn carried_out(before: StoredModel, plan: SavePlan) -> StoredModel {
    StoredModel {
        settings: plan.globals@,
        files: with_files(before.files, config::stored_views(plan.files@)).remove_keys(
            text::strs(plan.orphans@).to_set(),
        ),
    }
}

/// The name of the file with a stem.
pub open spec fn file_name(file_stem: Seq<char>) -> Seq<char> {
    file_stem + ".toml"@
}

/// The stems stand in the order of their files' names.
pub open spec fn in_order(stems: Seq<Seq<char>>) -> bool {
    forall|i: int, j: int|
        0 <= i < j < stems.len() ==> text::lex_lt(
            file_name(#[trigger] stems[i]),
            file_name(#[trigger] stems[j]),
        )
}

/// The stems are those of the files, in the order of the files' names. A file
/// without a stem is passed over.
pub open spec fn lists(stems: Seq<Seq<char>>, files: Map<Seq<char>, TargetFileModel>) -> bool {
    &&& in_order(stems)
    &&& forall|s: Seq<char>| #[trigger]
        stems.contains(s) <==> files.contains_key(s) && s.len() > 0
}

/// The files with these stems, in this order.
pub open spec fn read(
    files: Map<Seq<char>, TargetFileModel>,
    stems: Seq<Seq<char>>,
) -> Seq<TargetFileModel> {
    stems.map_values(|s: Seq<char>| files[s])
}

/// The stems of targets.
pub open spec fn stems_of(ts: Seq<TargetModel>) -> Seq<Seq<char>> {
    Seq::new(ts.len(), |i: int| config::stem(ts[i].name))
}

proof fn lemma_in_order_distinct(stems: Seq<Seq<char>>, i: int, j: int)
    requires
        in_order(stems),
        0 <= i < j < stems.len(),
    ensures
        stems[i] != stems[j],
{
    text::lemma_lex_asym(file_name(stems[i]), file_name(stems[i]));
}

/// Two ordered lists of the same stems are the same.
proof fn lemma_one_listing(a: Seq<Seq<char>>, b: Seq<Seq<char>>)
    requires
        in_order(a),
        in_order(b),
        forall|s: Seq<char>| #[trigger] a.contains(s) <==> b.contains(s),
    ensures
        a == b,
    decreases a.len(),
{
    if a.len() == 0 {
        if b.len() > 0 {
            assert(b.contains(b[0]));
            assert(a.contains(b[0]));
        }
        assert(a =~= b);
    } else {
        let x = a[a.len() - 1];
        assert(a.contains(x));
        assert(b.contains(x));
        let j = choose|j: int| 0 <= j < b.len() && b[j] == x;
        let y = b[b.len() - 1];
        assert(b.contains(y));
        assert(a.contains(y));
        let i = choose|i: int| 0 <= i < a.len() && a[i] == y;
        if x != y {
            assert(text::lex_lt(file_name(b[j]), file_name(b[b.len() - 1])));
            assert(text::lex_lt(file_name(a[i]), file_name(a[a.len() - 1])));
            text::lemma_lex_asym(file_name(x), file_name(y));
        }
        let a0 = a.drop_last();
        let b0 = b.drop_last();
        lemma_shorter_in_order(a);
        lemma_shorter_in_order(b);
        assert forall|s: Seq<char>| #[trigger] a0.contains(s) <==> b0.contains(s) by {
            lemma_but_the_last(a, s);
            lemma_but_the_last(b, s);
        }
        lemma_one_listing(a0, b0);
        assert(a =~= a0.push(x));
        assert(b =~= b0.push(y));
    }
}

proof fn lemma_shorter_in_order(stems: Seq<Seq<char>>)
    requires
        in_order(stems),
        stems.len() > 0,
    ensures
        in_order(stems.drop_last()),
{
    let rest = stems.drop_last();
    assert forall|i: int, j: int| 0 <= i < j < rest.len() implies text::lex_lt(
        file_name(#[trigger] rest[i]),
        file_name(#[trigger] rest[j]),
    ) by {
        assert(rest[i] == stems[i] && rest[j] == stems[j]);
    }
}

proof fn lemma_but_the_last(stems: Seq<Seq<char>>, s: Seq<char>)
    requires
        in_order(stems),
        stems.len() > 0,
    ensures
        stems.drop_last().contains(s) <==> stems.contains(s) && s != stems.last(),
{
    let rest = stems.drop_last();
    if rest.contains(s) {
        let k = choose|k: int| 0 <= k < rest.len() && rest[k] == s;
        assert(stems[k] == s);
        lemma_in_order_distinct(stems, k, stems.len() - 1);
    }
    if stems.contains(s) && s != stems.last() {
        let k = choose|k: int| 0 <= k < stems.len() && stems[k] == s;
        assert(rest[k] == s);
    }
}

/// Every target's file is written and holds that target, and no other is.
proof fn lemma_written(files: Map<Seq<char>, TargetFileModel>, ts: Seq<TargetModel>)
    requires
        stems_of(ts).no_duplicates(),
    ensures
        forall|i: int|
            0 <= i < ts.len() ==> with_files(
                files,
                config::stored_files(ts),
            )[#[trigger] stems_of(ts)[i]] == config::to_file(ts[i]),
        forall|s: Seq<char>| #[trigger]
            with_files(files, config::stored_files(ts)).contains_key(s) <==> files.contains_key(s)
                || stems_of(ts).contains(s),
    decreases ts.len(),
{
    let all = stems_of(ts);
    let now = with_files(files, config::stored_files(ts));
    if ts.len() > 0 {
        let rest = ts.drop_last();
        let head = stems_of(rest);
        let n = ts.len() - 1;
        assert(config::stored_files(rest) =~= config::stored_files(ts).drop_last());
        assert(head =~= all.drop_last());
        assert forall|a: int, b: int| 0 <= a < head.len() && 0 <= b < head.len() && a != b implies
            head[a] != head[b] by {
            assert(head[a] == all[a] && head[b] == all[b]);
        }
        lemma_written(files, rest);
        let before = with_files(files, config::stored_files(rest));
        assert forall|i: int| 0 <= i < ts.len() implies now[#[trigger] all[i]] == config::to_file(
            ts[i],
        ) by {
            if i < n {
                assert(head[i] == all[i]);
                assert(all[i] != all[n]);
            }
        }
        assert forall|s: Seq<char>| #[trigger] now.contains_key(s) <==> files.contains_key(s)
            || all.contains(s) by {
            assert(before.contains_key(s) <==> files.contains_key(s) || head.contains(s));
            if head.contains(s) {
                let k = choose|k: int| 0 <= k < head.len() && head[k] == s;
                assert(all[k] == s);
            }
            if all.contains(s) && s != all[n] {
                let k = choose|k: int| 0 <= k < all.len() && all[k] == s;
                assert(head[k] == s);
            }
            assert(all.contains(all[n]));
        }
    }
}

proof fn lemma_loaded(files: Map<Seq<char>, TargetFileModel>, ts: Seq<TargetModel>)
    requires
        in_order(stems_of(ts)),
        forall|i: int|
            0 <= i < ts.len() ==> config::tidy(#[trigger] ts[i]) && files[config::stem(ts[i].name)]
                == config::to_file(ts[i]),
    ensures
        config::loaded(read(files, stems_of(ts))) == ts,
    decreases ts.len(),
{
    let fs = read(files, stems_of(ts));
    if ts.len() == 0 {
        assert(ts =~= Seq::empty());
        assert(fs =~= Seq::empty());
    } else {
        let rest = ts.drop_last();
        let last = ts[ts.len() - 1];
        lemma_shorter_in_order(stems_of(ts));
        assert(stems_of(rest) =~= stems_of(ts).drop_last());
        assert(read(files, stems_of(rest)) =~= fs.drop_last());
        assert forall|i: int| 0 <= i < rest.len() implies config::tidy(#[trigger] rest[i])
            && files[config::stem(rest[i].name)] == config::to_file(rest[i]) by {
            assert(rest[i] == ts[i]);
        }
        lemma_loaded(files, rest);
        config::law_tidy_target_loads_back(last);
        assert(stems_of(ts).last() == config::stem(last.name));
        assert(fs.last() == config::to_file(last));
        if config::target_names(rest).contains(last.name) {
            let k = choose|k: int|
                0 <= k < rest.len() && config::target_names(rest)[k] == last.name;
            lemma_in_order_distinct(stems_of(ts), k, ts.len() - 1);
            assert(stems_of(ts)[k] == config::stem(rest[k].name));
        }
        assert(rest.push(last) =~= ts);
    }
}

/// The targets by the order of these stems, which are all theirs.
spec fn by_stems(ts: Seq<TargetModel>, stems: Seq<Seq<char>>) -> Seq<TargetModel> {
    Seq::new(stems.len(), |k: int| ts[text::place(stems_of(ts), stems[k])])
}

/// What a saved configuration gives when it is loaded: the settings and, in the
/// order of their files' names, exactly the targets, each as it was. It holds
/// whatever was on disk before, of every configuration whose targets are tidy,
/// have a name, and have stems that differ. No file of another target is left.
///
/// `plan` is what `Config::save` gives for `c` and the stems `on_disk` of the files
/// that are there; `stems` are those of the files that are there once it was carried
/// out; and `back` is what `Config::load` gives for them.
pub proof fn law_saved_configuration_loads_back(
    c: Config,
    before: StoredModel,
    on_disk: Seq<Seq<char>>,
    plan: SavePlan,
    stems: Seq<Seq<char>>,
    back: Config,
)
    requires
        forall|i: int|
            0 <= i < c.model().len() ==> config::tidy(#[trigger] c.model()[i])
                && c.model()[i].name.len() > 0,
        stems_of(c.model()).no_duplicates(),
        forall|s: Seq<char>| #[trigger]
            before.files.contains_key(s) && s.len() > 0 ==> on_disk.contains(s),
        config::saves(plan, c.settings(), c.model(), on_disk),
        lists(stems, carried_out(before, plan).files),
        back.settings() == carried_out(before, plan).settings,
        back.model() == config::loaded(read(carried_out(before, plan).files, stems)),
    ensures
        back.settings() == c.settings(),
        back.model().len() == c.model().len(),
        in_order(stems_of(back.model())),
        forall|t: TargetModel| #[trigger] back.model().contains(t) <==> c.model().contains(t),
        in_order(stems_of(c.model())) ==> back.model() == c.model(),
        forall|s: Seq<char>|
            s.len() > 0 ==> (#[trigger] carried_out(before, plan).files.contains_key(s)
                <==> stems_of(c.model()).contains(s)),
{
    let ts = c.model();
    let files = carried_out(before, plan).files;
    let put = with_files(before.files, config::stored_files(ts));
    let all = stems_of(ts);
    let f = |s: Seq<char>| config::orphan(ts, s);
    let gone = on_disk.filter(f);
    lemma_written(before.files, ts);
    assert forall|s: Seq<char>| s.len() > 0 implies (#[trigger] files.contains_key(s)
        <==> all.contains(s)) by {
        if all.contains(s) {
            let i = choose|i: int| 0 <= i < all.len() && all[i] == s;
            assert(config::stem(ts[i].name) == s);
            if gone.contains(s) {
                let k = choose|k: int| 0 <= k < gone.len() && gone[k] == s;
                on_disk.lemma_filter_pred(f, k);
            }
            assert(put.contains_key(s));
        }
        if files.contains_key(s) && !all.contains(s) {
            assert(put.contains_key(s));
            assert(before.files.contains_key(s));
            assert(config::orphan(ts, s)) by {
                assert forall|i: int| 0 <= i < ts.len() implies config::stem(
                    (#[trigger] ts[i]).name,
                ) != s by {
                    assert(all[i] == config::stem(ts[i].name));
                }
            }
            let k = choose|k: int| 0 <= k < on_disk.len() && on_disk[k] == s;
            on_disk.lemma_filter_contains(f, k);
            assert(gone.contains(s));
        }
    }
    assert forall|s: Seq<char>| #[trigger] stems.contains(s) <==> all.contains(s) by {
        if all.contains(s) {
            let i = choose|i: int| 0 <= i < all.len() && all[i] == s;
            assert(ts[i].name.len() > 0);
            assert(s.len() > 0);
            assert(files.contains_key(s));
        }
        if stems.contains(s) {
            assert(files.contains_key(s));
        }
    }
    let sorted = by_stems(ts, stems);
    assert forall|k: int| 0 <= k < stems.len() implies ts.contains(#[trigger] sorted[k])
        && config::stem(sorted[k].name) == stems[k] by {
        text::lemma_place(all, stems[k]);
        assert(stems.contains(stems[k]));
        assert(all.contains(stems[k]));
        let i = text::place(all, stems[k]);
        assert(all[i] == stems[k]);
        assert(sorted[k] == ts[i]);
    }
    assert(stems_of(sorted) =~= stems);
    assert forall|k: int| 0 <= k < sorted.len() implies config::tidy(#[trigger] sorted[k])
        && files[config::stem(sorted[k].name)] == config::to_file(sorted[k]) by {
        let i = choose|i: int| 0 <= i < ts.len() && ts[i] == sorted[k];
        assert(all[i] == config::stem(ts[i].name));
        assert(put[all[i]] == config::to_file(ts[i]));
        assert(stems.contains(stems[k]));
        assert(files.contains_key(stems[k]));
    }
    lemma_loaded(files, sorted);
    assert forall|t: TargetModel| #[trigger] sorted.contains(t) <==> ts.contains(t) by {
        if ts.contains(t) {
            let i = choose|i: int| 0 <= i < ts.len() && ts[i] == t;
            assert(all.contains(all[i]));
            assert(stems.contains(all[i]));
            let k = choose|k: int| 0 <= k < stems.len() && stems[k] == all[i];
            text::lemma_place(all, stems[k]);
            let p = text::place(all, stems[k]);
            assert(all[p] == all[i]);
            assert(sorted[k] == t);
        }
        if sorted.contains(t) {
            let k = choose|k: int| 0 <= k < sorted.len() && sorted[k] == t;
            assert(ts.contains(sorted[k]));
        }
    }
    lemma_in_order_no_duplicates(stems);
    lemma_same_length(stems, all);
    if in_order(all) {
        lemma_one_listing(stems, all);
        assert forall|k: int| 0 <= k < ts.len() implies #[trigger] sorted[k] == ts[k] by {
            text::lemma_place(all, stems[k]);
            assert(all.contains(stems[k]));
            assert(all[text::place(all, stems[k])] == all[k]);
        }
        assert(sorted =~= ts);
    }
}

proof fn lemma_in_order_no_duplicates(stems: Seq<Seq<char>>)
    requires
        in_order(stems),
    ensures
        stems.no_duplicates(),
{
    assert forall|i: int, j: int| 0 <= i < stems.len() && 0 <= j < stems.len() && i != j implies
        stems[i] != stems[j] by {
        if i < j {
            lemma_in_order_distinct(stems, i, j);
        } else {
            lemma_in_order_distinct(stems, j, i);
        }
    }
}

proof fn lemma_same_length(a: Seq<Seq<char>>, b: Seq<Seq<char>>)
    requires
        a.no_duplicates(),
        b.no_duplicates(),
        forall|s: Seq<char>| #[trigger] a.contains(s) <==> b.contains(s),
    ensures
        a.len() == b.len(),
{
    assert(a.to_set() =~= b.to_set());
    a.unique_seq_to_set();
    b.unique_seq_to_set();
}

} // verus!

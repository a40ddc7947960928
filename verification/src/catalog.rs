//! The matching pipeline: extract fields from each candidate path, apply the
//! rearrange rules, render the destination path, and group the resulting
//! samples into kits keyed by the index field.

use vstd::prelude::*;

use crate::dict::{dict_put, lookup, Dict};
use crate::ruleset::{
    fields_spec, render_spec, RuleError, RuleErrorView, Ruleset, RulesetView,
};
use crate::runtimeconfig::RuntimeConfig;
use crate::rx::{re_capture, re_is_match, regex_capture, regex_match, regex_ok, regex_compiles};
use crate::text::{replace_spec, strings_view};

verus! {

/// One matched and rendered file record.
#[derive(Debug)]
pub struct Sample {
    pub source_path: String,
    pub target_path: String,
    pub fields: Dict,
}

/// The mathematical content of a sample.
pub ghost struct SampleView {
    pub source_path: Seq<char>,
    pub target_path: Seq<char>,
    pub fields: Seq<(Seq<char>, Seq<char>)>,
}

impl Sample {
    pub open spec fn view(self) -> SampleView {
        SampleView {
            source_path: self.source_path@,
            target_path: self.target_path@,
            fields: self.fields@,
        }
    }
}

/// A named collection of samples sharing one index value.
#[derive(Debug)]
pub struct Kit {
    pub name: String,
    pub samples: Vec<Sample>,
}

/// The mathematical content of a kit.
pub ghost struct KitView {
    pub name: Seq<char>,
    pub samples: Seq<SampleView>,
}

impl Kit {
    pub open spec fn view(self) -> KitView {
        KitView {
            name: self.name@,
            samples: Seq::new(self.samples@.len(), |i: int| self.samples@[i]@),
        }
    }
}

/// The views of a sequence of kits.
pub open spec fn kits_view(v: Seq<Kit>) -> Seq<KitView> {
    Seq::new(v.len(), |i: int| v[i]@)
}

/// A field-for-field copy of a sample.
pub fn clone_sample(s: &Sample) -> (r: Sample)
    ensures
        r@ == s@,
{
    Sample {
        source_path: s.source_path.clone(),
        target_path: s.target_path.clone(),
        fields: s.fields.duplicate(),
    }
}

/// The rearrange pass: each rule in order reads its group's current value;
/// a missing group is a fatal inconsistency naming that group; when the value
/// matches the recheck expression, the rule's template is rendered against the
/// pass's input mapping `m0` — rewrites do not see each other's output within
/// the same pass — and the rendered string replaces the group's value.
pub open spec fn rearrange_spec(
    m0: Seq<(Seq<char>, Seq<char>)>,
    fields: Seq<(Seq<char>, Seq<char>)>,
    rearranges: Seq<(Seq<char>, Seq<char>)>,
    recheck: Seq<char>,
) -> Result<Seq<(Seq<char>, Seq<char>)>, Seq<char>>
    decreases rearranges.len(),
{
    if rearranges.len() == 0 {
        Ok(fields)
    } else {
        match lookup(fields, rearranges[0].0) {
            None => Err(rearranges[0].0),
            Some(v) => {
                let next = if regex_match(recheck, v) {
                    dict_put(fields, rearranges[0].0, render_spec(rearranges[0].1, m0))
                } else {
                    fields
                };
                rearrange_spec(m0, next, rearranges.skip(1), recheck)
            },
        }
    }
}

/// Law: with no rearrange rules, the field mapping comes through unchanged —
/// a ruleset whose rearrange section is empty never rewrites a field.
pub proof fn lemma_empty_rearranges_identity(
    m0: Seq<(Seq<char>, Seq<char>)>,
    fields: Seq<(Seq<char>, Seq<char>)>,
    recheck: Seq<char>,
)
    ensures
        rearrange_spec(m0, fields, Seq::empty(), recheck) == Ok::<
            Seq<(Seq<char>, Seq<char>)>,
            Seq<char>,
        >(fields),
{
}

/// Law: a single rearrange rule fires exactly when its group's current value
/// matches the recheck expression; it then replaces only that group's value
/// with the template rendered against the pass input `m0`, and otherwise
/// leaves the mapping unchanged.
pub proof fn lemma_rearrange_fires_on_recheck(
    m0: Seq<(Seq<char>, Seq<char>)>,
    fields: Seq<(Seq<char>, Seq<char>)>,
    g: Seq<char>,
    tmpl: Seq<char>,
    recheck: Seq<char>,
    v: Seq<char>,
)
    requires
        lookup(fields, g) == Some(v),
    ensures
        rearrange_spec(m0, fields, seq![(g, tmpl)], recheck) == Ok::<
            Seq<(Seq<char>, Seq<char>)>,
            Seq<char>,
        >(
            if regex_match(recheck, v) {
                dict_put(fields, g, render_spec(tmpl, m0))
            } else {
                fields
            },
        ),
{
    let one = seq![(g, tmpl)];
    assert(one[0] == (g, tmpl));
    assert(one.skip(1) =~= Seq::<(Seq<char>, Seq<char>)>::empty());
    let next = if regex_match(recheck, v) {
        dict_put(fields, g, render_spec(tmpl, m0))
    } else {
        fields
    };
    assert(rearrange_spec(m0, next, one.skip(1), recheck) == Ok::<
        Seq<(Seq<char>, Seq<char>)>,
        Seq<char>,
    >(next));
    assert(rearrange_spec(m0, fields, one, recheck) == rearrange_spec(
        m0,
        next,
        one.skip(1),
        recheck,
    ));
}

/// The input root with a single trailing path separator removed.
pub open spec fn strip_one_slash(p: Seq<char>) -> Seq<char> {
    if p.len() > 0 && (p.last() == '/' || p.last() == '\\') {
        p.drop_last()
    } else {
        p
    }
}

/// The record made from one matched path: the source is the input root plus
/// the matched text, the destination is the output-root template (with `*`
/// standing for the input root) joined with the ruleset's output template and
/// rendered against the final fields.
pub open spec fn sample_spec(
    path: Seq<char>,
    cap0: Seq<char>,
    input_root: Seq<char>,
    output_root: Seq<char>,
    rs: RulesetView,
) -> Result<SampleView, RuleErrorView> {
    let root = strip_one_slash(input_root);
    let target0 = replace_spec(output_root, "*"@, root) + "/"@ + rs.output;
    match fields_spec(rs.input, path, rs.input_order) {
        Err(g) => Err(RuleErrorView::CaptureUnavailable(g)),
        Ok(f0) => match rearrange_spec(f0, f0, rs.rearranges, rs.recheck) {
            Err(g) => Err(RuleErrorView::RearrangeGroupMissing(g)),
            Ok(f1) => Ok(
                SampleView {
                    source_path: root + "/"@ + cap0,
                    target_path: render_spec(target0, f1),
                    fields: f1,
                },
            ),
        },
    }
}

/// Process one matched path into a sample: extract the ordered captures, run
/// the rearrange rules, and render the source and destination paths.
#[verifier::loop_isolation(false)]
pub fn process_capture(path: &str, rcon: &RuntimeConfig, ruleset: &Ruleset) -> (r: Result<
    Sample,
    RuleError,
>)
    requires
        regex_ok(ruleset.input@),
        regex_ok(ruleset.recheck@),
        rcon.input_path@.len() > 0,
        regex_match(ruleset.input@, path@),
    ensures
        regex_capture(ruleset@.input, path@, 0) is Some,
        match r {
            Ok(s) => Ok::<SampleView, RuleErrorView>(s@) == sample_spec(
                path@,
                regex_capture(ruleset@.input, path@, 0)->Some_0,
                rcon@.input_path,
                rcon@.output_path,
                ruleset@,
            ),
            Err(e) => Err::<SampleView, RuleErrorView>(e@) == sample_spec(
                path@,
                regex_capture(ruleset@.input, path@, 0)->Some_0,
                rcon@.input_path,
                rcon@.output_path,
                ruleset@,
            ),
        },
{
    // the input root, without its trailing separator
    let mut root = crate::text::str_to_chars(rcon.input_path.as_str());
    let n = root.len();
    let last = root[n - 1];
    if last == '/' || last == '\\' {
        let _ = root.pop();
        proof {
            assert(root@ =~= strip_one_slash(rcon@.input_path));
        }
    }
    let cap0 = match re_capture(ruleset.input.as_str(), path, 0) {
        Some(c) => c,
        None => vstd::pervasive::unreached(),
    };
    // the destination skeleton: output root with `*` resolved, then the
    // ruleset's output template
    let star = crate::text::str_to_chars("*");
    let out_chars = crate::text::str_to_chars(rcon.output_path.as_str());
    let mut target0 = crate::text::replace_all(&out_chars, &star, &root);
    target0.push('/');
    let out_tmpl = crate::text::str_to_chars(ruleset.output.as_str());
    crate::text::push_all(&mut target0, &out_tmpl);
    proof {
        assert(target0@ =~= replace_spec(rcon@.output_path, "*"@, strip_one_slash(
            rcon@.input_path,
        )) + "/"@ + ruleset@.output) by {
            reveal_strlit("/");
            reveal_strlit("*");
        }
    }
    let mut target_pre = crate::text::chars_to_string(&target0);
    // the source path: root, separator, matched text
    let mut source = root;
    source.push('/');
    let cap0_chars = crate::text::str_to_chars(cap0.as_str());
    crate::text::push_all(&mut source, &cap0_chars);
    proof {
        assert(source@ =~= strip_one_slash(rcon@.input_path) + "/"@ + cap0@) by {
            reveal_strlit("/");
        }
    }
    // extract the fields, then run the rearrange rules; templates render
    // against the extracted mapping, so rewrites do not see each other's
    // output within the pass
    let mut fields = match crate::ruleset::map_capture(
        ruleset.input.as_str(),
        path,
        &ruleset.input_order,
    ) {
        Ok(d) => d,
        Err(e) => {
            return Err(e);
        },
    };
    let extracted = fields.duplicate();
    let ghost f0 = fields@;
    let ghost rearrs = ruleset@.rearranges;
    let mut i: usize = 0;
    proof {
        assert(rearrs.skip(0) =~= rearrs);
    }
    while i < ruleset.rearranges.entries.len()
        invariant
            i <= rearrs.len(),
            extracted@ == f0,
            rearrange_spec(f0, f0, rearrs, ruleset@.recheck) == rearrange_spec(
                f0,
                fields@,
                rearrs.skip(i as int),
                ruleset@.recheck,
            ),
        decreases rearrs.len() - i,
    {
        let ghost rest = rearrs.skip(i as int);
        proof {
            assert(rest[0] == rearrs[i as int]);
            assert(rest.skip(1) =~= rearrs.skip(i + 1));
            assert(rearrs[i as int].0 == ruleset.rearranges.entries@[i as int].key@);
            assert(rearrs[i as int].1 == ruleset.rearranges.entries@[i as int].value@);
        }
        let group = ruleset.rearranges.entries[i].key.clone();
        let recheck_val = match fields.get(group.as_str()) {
            None => {
                proof {
                    lemma_rearrange_stuck(f0, rearrs, ruleset@.recheck, fields@, i as int);
                }
                return Err(RuleError::RearrangeGroupMissing(group));
            },
            Some(v) => v.clone(),
        };
        if re_is_match(ruleset.recheck.as_str(), recheck_val.as_str()) {
            let mut new_value = ruleset.rearranges.entries[i].value.clone();
            crate::ruleset::apply_output_rule(&mut new_value, &extracted);
            fields.insert(group.as_str(), new_value);
        }
        i = i + 1;
    }
    proof {
        assert(rearrs.skip(i as int) =~= Seq::<(Seq<char>, Seq<char>)>::empty());
    }
    crate::ruleset::apply_output_rule(&mut target_pre, &fields);
    let source_path = crate::text::chars_to_string(&source);
    Ok(Sample { source_path, target_path: target_pre, fields })
}

/// If the pass reaches a rule whose group is absent, the whole pass fails
/// naming that group.
proof fn lemma_rearrange_stuck(
    f0: Seq<(Seq<char>, Seq<char>)>,
    rearrs: Seq<(Seq<char>, Seq<char>)>,
    recheck: Seq<char>,
    cur: Seq<(Seq<char>, Seq<char>)>,
    i: int,
)
    requires
        0 <= i < rearrs.len(),
        rearrange_spec(f0, f0, rearrs, recheck) == rearrange_spec(
            f0,
            cur,
            rearrs.skip(i),
            recheck,
        ),
        lookup(cur, rearrs[i].0) is None,
    ensures
        rearrange_spec(f0, f0, rearrs, recheck) == Err::<
            Seq<(Seq<char>, Seq<char>)>,
            Seq<char>,
        >(rearrs[i].0),
{
    assert(rearrs.skip(i)[0] == rearrs[i]);
}


/// Insert a sample under its kit name: the first kit with that name gets the
/// sample appended, and an unseen name opens a new kit at the end.
pub open spec fn kit_insert(kits: Seq<KitView>, name: Seq<char>, s: SampleView) -> Seq<KitView>
    decreases kits.len(),
{
    if kits.len() == 0 {
        seq![KitView { name: name, samples: seq![s] }]
    } else if kits[0].name == name {
        seq![KitView { name: kits[0].name, samples: kits[0].samples.push(s) }] + kits.skip(1)
    } else {
        seq![kits[0]] + kit_insert(kits.skip(1), name, s)
    }
}

/// Law: a record whose index value names an existing kit joins that kit, at
/// the end of its member sequence, and every other kit is untouched.
pub proof fn lemma_kit_insert_existing(kits: Seq<KitView>, name: Seq<char>, s: SampleView, i: int)
    requires
        0 <= i < kits.len(),
        kits[i].name == name,
        forall|j: int| 0 <= j < i ==> kits[j].name != name,
    ensures
        kit_insert(kits, name, s) == kits.update(
            i,
            KitView { name: kits[i].name, samples: kits[i].samples.push(s) },
        ),
    decreases i,
{
    if i == 0 {
        assert(seq![KitView { name: kits[0].name, samples: kits[0].samples.push(s) }] + kits.skip(
            1,
        ) =~= kits.update(0, KitView { name: kits[0].name, samples: kits[0].samples.push(s) }));
    } else {
        lemma_kit_insert_existing(kits.skip(1), name, s, i - 1);
        assert(kit_insert(kits, name, s) == seq![kits[0]] + kit_insert(kits.skip(1), name, s));
        assert(seq![kits[0]] + kits.skip(1).update(
            i - 1,
            KitView { name: kits[i].name, samples: kits[i].samples.push(s) },
        ) =~= kits.update(i, KitView { name: kits[i].name, samples: kits[i].samples.push(s) }));
    }
}

/// Law: a record with a previously unseen index value creates a new kit at the
/// end, holding exactly that record, and every existing kit is untouched.
pub proof fn lemma_kit_insert_new(kits: Seq<KitView>, name: Seq<char>, s: SampleView)
    requires
        forall|j: int| 0 <= j < kits.len() ==> kits[j].name != name,
    ensures
        kit_insert(kits, name, s) == kits.push(KitView { name: name, samples: seq![s] }),
    decreases kits.len(),
{
    if kits.len() == 0 {
        assert(seq![KitView { name: name, samples: seq![s] }] =~= kits.push(
            KitView { name: name, samples: seq![s] },
        ));
    } else {
        lemma_kit_insert_new(kits.skip(1), name, s);
        assert(kit_insert(kits, name, s) == seq![kits[0]] + kit_insert(kits.skip(1), name, s));
        assert(seq![kits[0]] + kits.skip(1).push(KitView { name: name, samples: seq![s] })
            =~= kits.push(KitView { name: name, samples: seq![s] }));
    }
}

/// The member sequence of the first kit named `v`, if any.
pub open spec fn kit_samples(kits: Seq<KitView>, v: Seq<char>) -> Option<Seq<SampleView>>
    decreases kits.len(),
{
    if kits.len() == 0 {
        None
    } else if kits[0].name == v {
        Some(kits[0].samples)
    } else {
        kit_samples(kits.skip(1), v)
    }
}

/// Law: inserting a sample under `n` appends it to the end of `n`'s kit
/// (a single-member kit when `n` is unseen) and leaves every other kit's
/// members untouched.
pub proof fn lemma_kit_insert_samples(
    kits: Seq<KitView>,
    n: Seq<char>,
    s: SampleView,
    v: Seq<char>,
)
    ensures
        kit_samples(kit_insert(kits, n, s), v) == (if v == n {
            match kit_samples(kits, n) {
                None => Some(seq![s]),
                Some(ss) => Some(ss.push(s)),
            }
        } else {
            kit_samples(kits, v)
        }),
    decreases kits.len(),
{
    if kits.len() == 0 {
        let e = kit_insert(kits, n, s);
        assert(e == seq![KitView { name: n, samples: seq![s] }]);
        assert(e[0] == KitView { name: n, samples: seq![s] });
        assert(e.skip(1) =~= Seq::<KitView>::empty());
        if v != n {
            assert(kit_samples(e, v) == kit_samples(e.skip(1), v));
        }
    } else if kits[0].name == n {
        let e = kit_insert(kits, n, s);
        assert(e == seq![KitView { name: kits[0].name, samples: kits[0].samples.push(s) }]
            + kits.skip(1));
        assert(e[0] == KitView { name: kits[0].name, samples: kits[0].samples.push(s) });
        assert(e.skip(1) =~= kits.skip(1));
        if v != n {
            assert(kit_samples(e, v) == kit_samples(kits.skip(1), v));
            assert(kit_samples(kits, v) == kit_samples(kits.skip(1), v));
        }
    } else {
        lemma_kit_insert_samples(kits.skip(1), n, s, v);
        let e = kit_insert(kits, n, s);
        assert(e == seq![kits[0]] + kit_insert(kits.skip(1), n, s));
        assert(e[0] == kits[0]);
        assert(e.skip(1) =~= kit_insert(kits.skip(1), n, s));
        if v == kits[0].name {
            assert(kit_samples(e, v) == Some(kits[0].samples));
            assert(kit_samples(kits, v) == Some(kits[0].samples));
        } else {
            assert(kit_samples(e, v) == kit_samples(kit_insert(kits.skip(1), n, s), v));
            assert(kit_samples(kits, v) == kit_samples(kits.skip(1), v));
        }
    }
}

/// Law: two records whose index resolves to the same value land in the same
/// kit, the earlier arrival before the later.
pub proof fn lemma_same_index_preserves_order(
    kits: Seq<KitView>,
    v: Seq<char>,
    s1: SampleView,
    s2: SampleView,
)
    ensures
        kit_samples(kit_insert(kit_insert(kits, v, s1), v, s2), v) == (match kit_samples(
            kits,
            v,
        ) {
            None => Some(seq![s1, s2]),
            Some(ss) => Some(ss.push(s1).push(s2)),
        }),
{
    lemma_kit_insert_samples(kits, v, s1, v);
    lemma_kit_insert_samples(kit_insert(kits, v, s1), v, s2, v);
    assert(seq![s1].push(s2) =~= seq![s1, s2]);
}

/// The whole batch: each path in order is matched against the input
/// expression; unmatched paths are skipped; each matched path becomes a sample
/// inserted under its index value; a fatal inconsistency aborts the batch.
pub open spec fn dataset_spec(
    paths: Seq<Seq<char>>,
    input_root: Seq<char>,
    output_root: Seq<char>,
    rs: RulesetView,
) -> Result<Seq<KitView>, RuleErrorView>
    decreases paths.len(),
{
    if paths.len() == 0 {
        Ok(Seq::empty())
    } else {
        match dataset_spec(paths.drop_last(), input_root, output_root, rs) {
            Err(e) => Err(e),
            Ok(kits) => {
                let path = paths.last();
                match regex_capture(rs.input, path, 0) {
                    None => Ok(kits),
                    Some(c0) => match sample_spec(path, c0, input_root, output_root, rs) {
                        Err(e) => Err(e),
                        Ok(s) => match lookup(s.fields, rs.index) {
                            None => Err(RuleErrorView::IndexFieldMissing(rs.index)),
                            Some(ix) => Ok(kit_insert(kits, ix, s)),
                        },
                    },
                }
            },
        }
    }
}

/// The matched records whose index field resolves to `v`, in dataset order.
pub open spec fn samples_for(
    paths: Seq<Seq<char>>,
    input_root: Seq<char>,
    output_root: Seq<char>,
    rs: RulesetView,
    v: Seq<char>,
) -> Seq<SampleView>
    decreases paths.len(),
{
    if paths.len() == 0 {
        Seq::empty()
    } else {
        let pre = samples_for(paths.drop_last(), input_root, output_root, rs, v);
        match regex_capture(rs.input, paths.last(), 0) {
            None => pre,
            Some(c0) => match sample_spec(paths.last(), c0, input_root, output_root, rs) {
                Err(_) => pre,
                Ok(s) => match lookup(s.fields, rs.index) {
                    None => pre,
                    Some(ix) => if ix == v {
                        pre.push(s)
                    } else {
                        pre
                    },
                },
            },
        }
    }
}

/// Law: in a successful run, the kit named `v` holds exactly the matched
/// records whose index value is `v`, in dataset order — so two records with
/// the same index value share one kit with the earlier arrival first, and a
/// previously unseen index value appears as a new kit holding just its record.
pub proof fn lemma_dataset_kit_members(
    paths: Seq<Seq<char>>,
    input_root: Seq<char>,
    output_root: Seq<char>,
    rs: RulesetView,
    v: Seq<char>,
)
    requires
        dataset_spec(paths, input_root, output_root, rs) is Ok,
    ensures
        ({
            let kits = dataset_spec(paths, input_root, output_root, rs)->Ok_0;
            let members = samples_for(paths, input_root, output_root, rs, v);
            kit_samples(kits, v) == (if members.len() == 0 {
                None::<Seq<SampleView>>
            } else {
                Some(members)
            })
        }),
    decreases paths.len(),
{
    if paths.len() > 0 {
        lemma_dataset_kit_members(paths.drop_last(), input_root, output_root, rs, v);
        let kits0 = dataset_spec(paths.drop_last(), input_root, output_root, rs)->Ok_0;
        let pre = samples_for(paths.drop_last(), input_root, output_root, rs, v);
        match regex_capture(rs.input, paths.last(), 0) {
            None => {},
            Some(c0) => match sample_spec(paths.last(), c0, input_root, output_root, rs) {
                Err(_) => {},
                Ok(s) => match lookup(s.fields, rs.index) {
                    None => {},
                    Some(ix) => {
                        lemma_kit_insert_samples(kits0, ix, s, v);
                        if ix == v && pre.len() == 0 {
                            assert(Seq::<SampleView>::empty().push(s) =~= seq![s]);
                        }
                    },
                },
            },
        }
    }
}

/// Law: a path on which the input expression finds no match (capture group 0
/// is present exactly on matched paths) contributes nothing: the batch result
/// with it equals the batch result without it, and it raises no error.
pub proof fn lemma_unmatched_path_skipped(
    paths: Seq<Seq<char>>,
    i: int,
    input_root: Seq<char>,
    output_root: Seq<char>,
    rs: RulesetView,
)
    requires
        0 <= i < paths.len(),
        regex_capture(rs.input, paths[i], 0) is None,
    ensures
        dataset_spec(paths, input_root, output_root, rs) == dataset_spec(
            paths.remove(i),
            input_root,
            output_root,
            rs,
        ),
    decreases paths.len(),
{
    if i == paths.len() - 1 {
        assert(paths.remove(i) =~= paths.drop_last());
    } else {
        lemma_unmatched_path_skipped(paths.drop_last(), i, input_root, output_root, rs);
        assert(paths.remove(i).drop_last() =~= paths.drop_last().remove(i));
        assert(paths.remove(i).last() == paths.last());
    }
}

/// Once the batch fold hits an error on a prefix, every longer prefix keeps it.
proof fn lemma_dataset_err_persists(
    paths: Seq<Seq<char>>,
    k: int,
    input_root: Seq<char>,
    output_root: Seq<char>,
    rs: RulesetView,
    e: RuleErrorView,
)
    requires
        0 <= k <= paths.len(),
        dataset_spec(paths.take(k), input_root, output_root, rs) == Err::<
            Seq<KitView>,
            RuleErrorView,
        >(e),
    ensures
        dataset_spec(paths, input_root, output_root, rs) == Err::<Seq<KitView>, RuleErrorView>(e),
    decreases paths.len() - k,
{
    if k == paths.len() {
        assert(paths.take(k) =~= paths);
    } else {
        assert(paths.take(k + 1).drop_last() =~= paths.take(k));
        lemma_dataset_err_persists(paths, k + 1, input_root, output_root, rs, e);
    }
}

/// Position of the first kit with the given name, if any.
fn kit_position(kits: &Vec<Kit>, name: &str) -> (r: Option<usize>)
    ensures
        match r {
            Some(j) => j < kits@.len() && kits_view(kits@)[j as int].name == name@ && forall|
                jj: int,
            | 0 <= jj < j ==> kits_view(kits@)[jj].name != name@,
            None => forall|jj: int| 0 <= jj < kits@.len() ==> kits_view(kits@)[jj].name != name@,
        },
{
    let mut j: usize = 0;
    while j < kits.len()
        invariant
            j <= kits@.len(),
            forall|jj: int| 0 <= jj < j ==> kits_view(kits@)[jj].name != name@,
        decreases kits@.len() - j,
    {
        if crate::text::str_eq(kits[j].name.as_str(), name) {
            return Some(j);
        }
        j = j + 1;
    }
    None
}

/// Append a sample to the kit at position `j`.
fn kit_append(kits: &mut Vec<Kit>, j: usize, s: Sample)
    requires
        j < old(kits)@.len(),
    ensures
        kits_view(final(kits)@) == kits_view(old(kits)@).update(
            j as int,
            KitView {
                name: kits_view(old(kits)@)[j as int].name,
                samples: kits_view(old(kits)@)[j as int].samples.push(s@),
            },
        ),
{
    let ghost orig = kits_view(old(kits)@);
    let mut k = kits.remove(j);
    let ghost kv = k@;
    k.samples.push(s);
    proof {
        assert(k@.samples =~= kv.samples.push(s@));
        assert(k@ == KitView { name: orig[j as int].name, samples: orig[j as int].samples.push(s@) });
    }
    kits.insert(j, k);
    proof {
        assert(kits_view(kits@) =~= orig.update(
            j as int,
            KitView { name: orig[j as int].name, samples: orig[j as int].samples.push(s@) },
        ));
    }
}

/// Match every path of the dataset against the ruleset and group the
/// resulting samples into kits keyed by the index field's value. Fails up
/// front when the input or recheck expression does not compile, and on any
/// fatal inconsistency between the ruleset and a matched record.
#[verifier::loop_isolation(false)]
pub fn process_dataset(dataset: Vec<String>, rcon: &RuntimeConfig, ruleset: &Ruleset) -> (r:
    Result<Vec<Kit>, RuleError>)
    requires
        rcon.input_path@.len() > 0,
    ensures
        match r {
            Ok(kits) => {
                &&& regex_ok(ruleset@.input)
                &&& regex_ok(ruleset@.recheck)
                &&& Ok::<Seq<KitView>, RuleErrorView>(kits_view(kits@)) == dataset_spec(
                    strings_view(dataset@),
                    rcon@.input_path,
                    rcon@.output_path,
                    ruleset@,
                )
            },
            Err(e) => {
                ||| (e@ == RuleErrorView::BadInputPattern && !regex_ok(ruleset@.input))
                ||| (e@ == RuleErrorView::BadRecheckPattern && regex_ok(ruleset@.input)
                    && !regex_ok(ruleset@.recheck))
                ||| (regex_ok(ruleset@.input) && regex_ok(ruleset@.recheck) && Err::<
                    Seq<KitView>,
                    RuleErrorView,
                >(e@) == dataset_spec(
                    strings_view(dataset@),
                    rcon@.input_path,
                    rcon@.output_path,
                    ruleset@,
                ))
            },
        },
{
    if !regex_compiles(ruleset.input.as_str()) {
        return Err(RuleError::BadInputPattern);
    }
    if !regex_compiles(ruleset.recheck.as_str()) {
        return Err(RuleError::BadRecheckPattern);
    }
    let ghost paths = strings_view(dataset@);
    let mut kits: Vec<Kit> = Vec::new();
    proof {
        assert(paths.take(0) =~= Seq::<Seq<char>>::empty());
        assert(kits_view(kits@) =~= Seq::<KitView>::empty());
    }
    let mut i: usize = 0;
    while i < dataset.len()
        invariant
            i <= paths.len(),
            Ok::<Seq<KitView>, RuleErrorView>(kits_view(kits@)) == dataset_spec(
                paths.take(i as int),
                rcon@.input_path,
                rcon@.output_path,
                ruleset@,
            ),
        decreases paths.len() - i,
    {
        let ghost acc = kits_view(kits@);
        proof {
            assert(paths.take(i + 1).drop_last() =~= paths.take(i as int));
            assert(paths.take(i + 1).last() == paths[i as int]);
            assert(paths[i as int] == dataset@[i as int]@);
        }
        let path = &dataset[i];
        match re_capture(ruleset.input.as_str(), path.as_str(), 0) {
            None => {},
            Some(_) => {
                let sample = match process_capture(path.as_str(), rcon, ruleset) {
                    Ok(s) => s,
                    Err(e) => {
                        proof {
                            assert(dataset_spec(
                                paths.take(i + 1),
                                rcon@.input_path,
                                rcon@.output_path,
                                ruleset@,
                            ) == Err::<Seq<KitView>, RuleErrorView>(e@));
                            lemma_dataset_err_persists(
                                paths,
                                i + 1,
                                rcon@.input_path,
                                rcon@.output_path,
                                ruleset@,
                                e@,
                            );
                        }
                        return Err(e);
                    },
                };
                let ghost sv = sample@;
                let index_value = match sample.fields.get(ruleset.index.as_str()) {
                    None => {
                        proof {
                            assert(dataset_spec(
                                paths.take(i + 1),
                                rcon@.input_path,
                                rcon@.output_path,
                                ruleset@,
                            ) == Err::<Seq<KitView>, RuleErrorView>(
                                RuleErrorView::IndexFieldMissing(ruleset@.index),
                            ));
                            lemma_dataset_err_persists(
                                paths,
                                i + 1,
                                rcon@.input_path,
                                rcon@.output_path,
                                ruleset@,
                                RuleErrorView::IndexFieldMissing(ruleset@.index),
                            );
                        }
                        return Err(RuleError::IndexFieldMissing(ruleset.index.clone()));
                    },
                    Some(v) => v.clone(),
                };
                let ghost ixv = index_value@;
                match kit_position(&kits, index_value.as_str()) {
                    Some(j) => {
                        proof {
                            lemma_kit_insert_existing(acc, ixv, sv, j as int);
                        }
                        kit_append(&mut kits, j, sample);
                    },
                    None => {
                        proof {
                            lemma_kit_insert_new(acc, ixv, sv);
                        }
                        let mut members: Vec<Sample> = Vec::new();
                        members.push(sample);
                        kits.push(Kit { name: index_value, samples: members });
                        proof {
                            assert(kits@[kits@.len() - 1]@.samples =~= seq![sv]);
                            assert(kits@[kits@.len() - 1]@ == KitView {
                                name: ixv,
                                samples: seq![sv],
                            });
                            assert(kits_view(kits@) =~= acc.push(
                                KitView { name: ixv, samples: seq![sv] },
                            ));
                        }
                    },
                }
            },
        }
        i = i + 1;
    }
    proof {
        assert(paths.take(paths.len() as int) =~= paths);
    }
    Ok(kits)
}

/// The kits whose member count reaches `min`, in order.
pub open spec fn filter_trunc(kits: Seq<KitView>, min: int) -> Seq<KitView>
    decreases kits.len(),
{
    if kits.len() == 0 {
        Seq::empty()
    } else {
        let pre = filter_trunc(kits.drop_last(), min);
        if kits.last().samples.len() >= min {
            pre.push(kits.last())
        } else {
            pre
        }
    }
}

/// Whether `n` is one of `names`.
pub open spec fn name_in(names: Seq<Seq<char>>, n: Seq<char>) -> bool {
    exists|i: int| 0 <= i < names.len() && names[i] == n
}

/// The kits whose name is in `names`, in order.
pub open spec fn filter_names(kits: Seq<KitView>, names: Seq<Seq<char>>) -> Seq<KitView>
    decreases kits.len(),
{
    if kits.len() == 0 {
        Seq::empty()
    } else {
        let pre = filter_names(kits.drop_last(), names);
        if name_in(names, kits.last().name) {
            pre.push(kits.last())
        } else {
            pre
        }
    }
}

/// The post-aggregation filters: a positive truncation threshold drops the
/// kits with fewer members, and a non-empty allow-list then drops the kits
/// whose name it lacks.
pub open spec fn apply_filters_spec(
    kits: Seq<KitView>,
    trunc: int,
    names: Seq<Seq<char>>,
) -> Seq<KitView> {
    let a = if trunc > 0 {
        filter_trunc(kits, trunc)
    } else {
        kits
    };
    if names.len() > 0 {
        filter_names(a, names)
    } else {
        a
    }
}

/// Whether `n` is one of the configured kit names.
fn contains_name(names: &Vec<String>, n: &str) -> (r: bool)
    ensures
        r == name_in(strings_view(names@), n@),
{
    let mut i: usize = 0;
    while i < names.len()
        invariant
            i <= names@.len(),
            forall|j: int| 0 <= j < i ==> strings_view(names@)[j] != n@,
        decreases names@.len() - i,
    {
        if crate::text::str_eq(names[i].as_str(), n) {
            proof {
                assert(strings_view(names@)[i as int] == n@);
            }
            return true;
        }
        i = i + 1;
    }
    false
}

/// Keep only the kits with at least `min` members.
#[verifier::loop_isolation(false)]
fn retain_min_len(kits: &mut Vec<Kit>, min: usize)
    ensures
        kits_view(final(kits)@) == filter_trunc(kits_view(old(kits)@), min as int),
{
    let ghost orig = kits_view(old(kits)@);
    let mut out: Vec<Kit> = Vec::new();
    let mut j: usize = 0;
    proof {
        assert(orig.take(0) =~= Seq::<KitView>::empty());
        assert(kits_view(out@) =~= Seq::<KitView>::empty());
        assert(kits_view(kits@) == orig);
    }
    while j < kits.len()
        invariant
            j <= orig.len(),
            kits@.len() == orig.len(),
            kits_view(kits@) == orig,
            kits_view(out@) == filter_trunc(orig.take(j as int), min as int),
        decreases orig.len() - j,
    {
        let ghost outv = kits_view(out@);
        proof {
            assert(orig.take(j + 1).drop_last() =~= orig.take(j as int));
            assert(orig.take(j + 1).last() == orig[j as int]);
            assert(orig[j as int] == kits@[j as int]@);
        }
        if kits[j].samples.len() >= min {
            let k = clone_kit(&kits[j]);
            out.push(k);
            proof {
                assert(kits_view(out@) =~= outv.push(orig[j as int]));
            }
        }
        j = j + 1;
    }
    proof {
        assert(orig.take(orig.len() as int) =~= orig);
    }
    *kits = out;
}

/// Keep only the kits whose name is in `names`.
#[verifier::loop_isolation(false)]
fn retain_named(kits: &mut Vec<Kit>, names: &Vec<String>)
    ensures
        kits_view(final(kits)@) == filter_names(
            kits_view(old(kits)@),
            strings_view(names@),
        ),
{
    let ghost orig = kits_view(old(kits)@);
    let mut out: Vec<Kit> = Vec::new();
    let mut j: usize = 0;
    proof {
        assert(orig.take(0) =~= Seq::<KitView>::empty());
        assert(kits_view(out@) =~= Seq::<KitView>::empty());
        assert(kits_view(kits@) == orig);
    }
    while j < kits.len()
        invariant
            j <= orig.len(),
            kits@.len() == orig.len(),
            kits_view(kits@) == orig,
            kits_view(out@) == filter_names(orig.take(j as int), strings_view(names@)),
        decreases orig.len() - j,
    {
        let ghost outv = kits_view(out@);
        proof {
            assert(orig.take(j + 1).drop_last() =~= orig.take(j as int));
            assert(orig.take(j + 1).last() == orig[j as int]);
            assert(orig[j as int] == kits@[j as int]@);
        }
        if contains_name(names, kits[j].name.as_str()) {
            let k = clone_kit(&kits[j]);
            out.push(k);
            proof {
                assert(kits_view(out@) =~= outv.push(orig[j as int]));
            }
        }
        j = j + 1;
    }
    proof {
        assert(orig.take(orig.len() as int) =~= orig);
    }
    *kits = out;
}

/// A member-for-member copy of a kit.
fn clone_kit(k: &Kit) -> (r: Kit)
    ensures
        r@ == k@,
{
    let mut members: Vec<Sample> = Vec::new();
    let mut i: usize = 0;
    while i < k.samples.len()
        invariant
            i <= k.samples@.len(),
            members@.len() == i,
            forall|j: int| 0 <= j < i ==> #[trigger] members@[j]@ == k.samples@[j]@,
        decreases k.samples@.len() - i,
    {
        members.push(clone_sample(&k.samples[i]));
        i = i + 1;
    }
    let r = Kit { name: k.name.clone(), samples: members };
    proof {
        assert(r@.samples =~= k@.samples);
    }
    r
}

/// Drop the kits below the truncation threshold, then the kits missing from a
/// non-empty allow-list.
pub fn apply_filters(processed_dataset: &mut Vec<Kit>, rcon: &RuntimeConfig)
    ensures
        kits_view(final(processed_dataset)@) == apply_filters_spec(
            kits_view(old(processed_dataset)@),
            rcon.trunc as int,
            rcon@.kits,
        ),
{
    if rcon.trunc > 0 {
        let min: usize = rcon.trunc as usize;
        retain_min_len(processed_dataset, min);
    }
    if rcon.kits.len() > 0 {
        retain_named(processed_dataset, &rcon.kits);
    }
}

} // verus!

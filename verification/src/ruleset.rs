//! Rule compilation: placeholder syntax, capture-order assignment, template
//! substitution, and ruleset construction from defaults or a parsed
//! configuration source.

use vstd::prelude::*;

use crate::dict::{lookup, dict_put, Dict, Entry};
use crate::text::{
    bracketed_placeholder, first_occurrence, is_first_occurrence, occurs_in, occurs_twice,
    replace_all, replace_spec, trim_spec, normalize_spec,
};

verus! {

/// A fatal configuration problem found while building a ruleset, carrying the
/// offending key or group name where one exists.
#[derive(Clone, Debug, PartialEq, Eq)]
pub enum RuleError {
    /// The input template references none of the declared groups.
    TemplateWithoutGroups,
    /// The configuration source has no groups section.
    MissingGroupsSection,
    /// The configuration source lacks the `input` key.
    MissingInput,
    /// The configuration source lacks the `output` key.
    MissingOutput,
    /// The configuration source lacks the `index` key.
    MissingIndex,
    /// The named index group is not declared in the groups section.
    UnknownIndexGroup(String),
    /// The named group's capture was unavailable on a match.
    CaptureUnavailable(String),
    /// The input expression does not compile.
    BadInputPattern,
    /// The recheck expression does not compile.
    BadRecheckPattern,
    /// The named rearrange group is absent from the extracted fields.
    RearrangeGroupMissing(String),
    /// The named index group's value is absent from a matched record.
    IndexFieldMissing(String),
    /// The named group's placeholder occurs more than once in the input template.
    DuplicatePlaceholder(String),
    /// A rearrange rule names this group, which the groups section does not declare.
    UnknownRearrangeGroup(String),
}

/// The mathematical content of a configuration problem.
pub ghost enum RuleErrorView {
    TemplateWithoutGroups,
    MissingGroupsSection,
    MissingInput,
    MissingOutput,
    MissingIndex,
    UnknownIndexGroup(Seq<char>),
    CaptureUnavailable(Seq<char>),
    BadInputPattern,
    BadRecheckPattern,
    RearrangeGroupMissing(Seq<char>),
    IndexFieldMissing(Seq<char>),
    DuplicatePlaceholder(Seq<char>),
    UnknownRearrangeGroup(Seq<char>),
}

impl RuleError {
    pub open spec fn view(self) -> RuleErrorView {
        match self {
            RuleError::TemplateWithoutGroups => RuleErrorView::TemplateWithoutGroups,
            RuleError::MissingGroupsSection => RuleErrorView::MissingGroupsSection,
            RuleError::MissingInput => RuleErrorView::MissingInput,
            RuleError::MissingOutput => RuleErrorView::MissingOutput,
            RuleError::MissingIndex => RuleErrorView::MissingIndex,
            RuleError::UnknownIndexGroup(g) => RuleErrorView::UnknownIndexGroup(g@),
            RuleError::CaptureUnavailable(g) => RuleErrorView::CaptureUnavailable(g@),
            RuleError::BadInputPattern => RuleErrorView::BadInputPattern,
            RuleError::BadRecheckPattern => RuleErrorView::BadRecheckPattern,
            RuleError::RearrangeGroupMissing(g) => RuleErrorView::RearrangeGroupMissing(g@),
            RuleError::IndexFieldMissing(g) => RuleErrorView::IndexFieldMissing(g@),
            RuleError::DuplicatePlaceholder(g) => RuleErrorView::DuplicatePlaceholder(g@),
            RuleError::UnknownRearrangeGroup(g) => RuleErrorView::UnknownRearrangeGroup(g@),
        }
    }
}

/// The views of a sequence of configuration problems.
pub open spec fn errors_view(s: Seq<RuleError>) -> Seq<RuleErrorView> {
    Seq::new(s.len(), |i: int| s[i]@)
}

/// The placeholder token for a group name: `{name}`.
pub fn with_brackets(group_name: &str) -> (r: String)
    ensures
        r@ == bracketed_placeholder(group_name@),
{
    let mut out: Vec<char> = Vec::new();
    out.push('{');
    let cs = crate::text::str_to_chars(group_name);
    crate::text::push_all(&mut out, &cs);
    out.push('}');
    proof {
        assert(out@ =~= bracketed_placeholder(group_name@));
    }
    crate::text::chars_to_string(&out)
}

/// The groups whose placeholder occurs in the template, in declaration order,
/// each with the offset of the placeholder's first occurrence.
pub open spec fn occ_list(template: Seq<char>, gs: Seq<(Seq<char>, Seq<char>)>) -> Seq<
    (Seq<char>, int),
>
    decreases gs.len(),
{
    if gs.len() == 0 {
        Seq::empty()
    } else {
        let pre = occ_list(template, gs.drop_last());
        let name = gs.last().0;
        if occurs_in(template, bracketed_placeholder(name)) {
            pre.push((name, first_occurrence(template, bracketed_placeholder(name))))
        } else {
            pre
        }
    }
}

/// If some declared group's placeholder occurs in the template, the occurrence
/// list is non-empty.
pub proof fn lemma_occ_list_nonempty(
    template: Seq<char>,
    gs: Seq<(Seq<char>, Seq<char>)>,
    m: int,
)
    requires
        0 <= m < gs.len(),
        occurs_in(template, bracketed_placeholder(gs[m].0)),
    ensures
        occ_list(template, gs).len() > 0,
    decreases gs.len(),
{
    if m == gs.len() - 1 {
        assert(gs.last() == gs[m]);
    } else {
        lemma_occ_list_nonempty(template, gs.drop_last(), m);
    }
}

/// Strict ordering on (offset, declaration position) pairs.
pub open spec fn key_lt(a: (int, int), b: (int, int)) -> bool {
    a.0 < b.0 || (a.0 == b.0 && a.1 < b.1)
}

/// The sort key of the occurrence-list entry at position `j`.
pub open spec fn occ_key(l: Seq<(Seq<char>, int)>, j: int) -> (int, int) {
    (l[j].1, j)
}

/// How many of the first `upto` occurrence-list entries have a key below `k`.
pub open spec fn count_lt(l: Seq<(Seq<char>, int)>, upto: int, k: (int, int)) -> int
    decreases upto,
{
    if upto <= 0 {
        0
    } else {
        count_lt(l, upto - 1, k) + if key_lt(occ_key(l, upto - 1), k) {
            1int
        } else {
            0int
        }
    }
}

pub proof fn lemma_count_lt_bound(l: Seq<(Seq<char>, int)>, upto: int, k: (int, int))
    ensures
        0 <= count_lt(l, upto, k) <= if upto >= 0 {
            upto
        } else {
            0int
        },
    decreases upto,
{
    if upto > 0 {
        lemma_count_lt_bound(l, upto - 1, k);
    }
}

/// A key at a position inside the counted range is never counted below itself,
/// so its rank stays below `upto`.
pub proof fn lemma_count_lt_self(l: Seq<(Seq<char>, int)>, upto: int, j: int)
    requires
        0 <= j < upto,
    ensures
        count_lt(l, upto, occ_key(l, j)) <= upto - 1,
    decreases upto,
{
    lemma_count_lt_bound(l, upto - 1, occ_key(l, j));
    if j < upto - 1 {
        lemma_count_lt_self(l, upto - 1, j);
    }
}

/// Counting below a smaller key never yields more than counting below a
/// larger one.
pub proof fn lemma_count_lt_mono(l: Seq<(Seq<char>, int)>, upto: int, a: (int, int), b: (int, int))
    requires
        key_lt(a, b) || a == b,
    ensures
        count_lt(l, upto, a) <= count_lt(l, upto, b),
    decreases upto,
{
    if upto > 0 {
        lemma_count_lt_mono(l, upto - 1, a, b);
    }
}

/// Counting strictly separates a key inside the range from any larger key.
pub proof fn lemma_count_lt_strict(l: Seq<(Seq<char>, int)>, upto: int, i: int, b: (int, int))
    requires
        0 <= i < upto,
        key_lt(occ_key(l, i), b),
    ensures
        count_lt(l, upto, occ_key(l, i)) < count_lt(l, upto, b),
    decreases upto,
{
    let a = occ_key(l, i);
    if i == upto - 1 {
        lemma_count_lt_mono(l, upto - 1, a, b);
    } else {
        lemma_count_lt_strict(l, upto - 1, i, b);
    }
}

/// Every rank below `upto` is taken by some entry: ranks are surjective.
pub proof fn lemma_rank_surjective(l: Seq<(Seq<char>, int)>, upto: int, r: int)
    requires
        0 <= r < upto <= l.len(),
    ensures
        exists|i: int|
            0 <= i < upto && count_lt(l, upto, #[trigger] occ_key(l, i)) == r,
    decreases upto,
{
    let e = occ_key(l, upto - 1);
    let m = count_lt(l, upto - 1, e);
    lemma_count_lt_bound(l, upto - 1, e);
    assert(count_lt(l, upto, e) == m);
    if r == m {
        assert(0 <= upto - 1 < upto && count_lt(l, upto, occ_key(l, upto - 1)) == r);
    } else if r < m {
        lemma_count_lt_bound(l, upto - 1, e);
        lemma_rank_surjective(l, upto - 1, r);
        let i = choose|i: int|
            0 <= i < upto - 1 && count_lt(l, upto - 1, #[trigger] occ_key(l, i)) == r;
        let ki = occ_key(l, i);
        if !key_lt(ki, e) {
            assert(key_lt(e, ki));
            lemma_count_lt_mono(l, upto - 1, e, ki);
            assert(false);
        }
        assert(count_lt(l, upto, ki) == r);
    } else {
        lemma_rank_surjective(l, upto - 1, r - 1);
        let i = choose|i: int|
            0 <= i < upto - 1 && count_lt(l, upto - 1, #[trigger] occ_key(l, i)) == r - 1;
        let ki = occ_key(l, i);
        if key_lt(ki, e) {
            lemma_count_lt_strict(l, upto - 1, i, e);
            assert(false);
        }
        assert(key_lt(e, ki));
        assert(count_lt(l, upto, ki) == r);
    }
}

/// Some entry of the order mapping carries position `p`.
pub open spec fn has_pos(om: Seq<(Seq<char>, int)>, p: int) -> bool {
    exists|j: int| 0 <= j < om.len() && #[trigger] om[j].1 == p
}

/// The compiled order mapping: each occurring group name paired with its
/// 1-based capture position, in declaration order. The position of an entry is
/// one more than the number of entries whose placeholder occurs earlier in the
/// template (ties broken by declaration order).
pub open spec fn group_order_spec(template: Seq<char>, gs: Seq<(Seq<char>, Seq<char>)>) -> Seq<
    (Seq<char>, int),
> {
    let l = occ_list(template, gs);
    Seq::new(l.len(), |j: int| (l[j].0, 1 + count_lt(l, l.len() as int, occ_key(l, j))))
}

/// One group name with its 1-based capture position.
#[derive(Debug)]
pub struct OrderEntry {
    pub key: String,
    pub pos: usize,
}

/// The order mapping from group name to capture position.
#[derive(Debug)]
pub struct GroupOrder {
    pub entries: Vec<OrderEntry>,
}

impl GroupOrder {
    pub open spec fn view(self) -> Seq<(Seq<char>, int)> {
        Seq::new(
            self.entries@.len(),
            |i: int| (self.entries@[i].key@, self.entries@[i].pos as int),
        )
    }
}

// Helper to read an entry's key without moving out of the vector.
fn self_key(d: &Dict, i: usize) -> (r: &String)
    requires
        i < d@.len(),
    ensures
        r@ == d@[i as int].0,
{
    &d.entries[i].key
}

/// Assign capture positions to the groups whose placeholder occurs in the raw
/// (unexpanded) input template: positions count occurrences left to right,
/// starting at 1, mirroring how the regex engine numbers capture groups once
/// the placeholders are substituted.
///
/// The returned mapping is a bijection onto `{1..k}` for `k` occurring groups;
/// it fails when no declared group occurs in the template.
#[verifier::rlimit(30)]
#[verifier::loop_isolation(false)]
pub fn get_group_order(raw_input_str: &str, groups: &Dict) -> (r: Result<GroupOrder, RuleError>)
    ensures
        match r {
            Ok(om) => {
                &&& om@ == group_order_spec(raw_input_str@, groups@)
                &&& om@.len() > 0
                &&& forall|j: int| 0 <= j < om@.len() ==> 1 <= #[trigger] om@[j].1 <= om@.len()
                &&& forall|j1: int, j2: int|
                    0 <= j1 < j2 < om@.len() ==> om@[j1].1 != om@[j2].1
                &&& forall|p: int| 1 <= p <= om@.len() ==> #[trigger] has_pos(om@, p)
                &&& forall|j1: int, j2: int|
                    #![trigger om@[j1].1, om@[j2].1]
                    0 <= j1 < om@.len() && 0 <= j2 < om@.len() ==> (om@[j1].1 < om@[j2].1
                        <==> key_lt(
                        occ_key(occ_list(raw_input_str@, groups@), j1),
                        occ_key(occ_list(raw_input_str@, groups@), j2),
                    ))
            },
            Err(e) => {
                &&& e == RuleError::TemplateWithoutGroups
                &&& occ_list(raw_input_str@, groups@).len() == 0
            },
        },
{
    let template = crate::text::str_to_chars(raw_input_str);
    let ghost gs = groups@;
    let ghost t = raw_input_str@;
    let mut names: Vec<String> = Vec::new();
    let mut offs: Vec<usize> = Vec::new();
    let mut gi: usize = 0;
    while gi < groups.entries.len()
        invariant
            gi <= gs.len(),
            names@.len() == offs@.len(),
            names@.len() == occ_list(t, gs.take(gi as int)).len(),
            forall|j: int| #![trigger names@[j]]
                0 <= j < names@.len() ==> names@[j]@ == occ_list(t, gs.take(gi as int))[j].0,
            forall|j: int| #![trigger offs@[j]]
                0 <= j < offs@.len() ==> offs@[j] as int == occ_list(t, gs.take(gi as int))[j].1,
        decreases gs.len() - gi,
    {
        let ghost pre = occ_list(t, gs.take(gi as int));
        let bname = with_brackets(self_key(groups, gi).as_str());
        let bchars = crate::text::str_to_chars(bname.as_str());
        proof {
            assert(gs.take(gi + 1).drop_last() =~= gs.take(gi as int));
            assert(gs.take(gi + 1).last() == gs[gi as int]);
            assert(bchars@ == bracketed_placeholder(gs[gi as int].0));
        }
        match crate::text::find_sub(&template, &bchars) {
            Some(off) => {
                proof {
                    let b = bracketed_placeholder(gs[gi as int].0);
                    assert(is_first_occurrence(t, b, off as int));
                    assert(occurs_in(t, b)) by {
                        assert(crate::text::occurs_at(t, b, off as int));
                    }
                    assert(is_first_occurrence(t, b, first_occurrence(t, b))) by {
                        assert(exists|i: int| is_first_occurrence(t, b, i));
                    }
                    crate::text::lemma_first_occurrence_unique(
                        t,
                        b,
                        off as int,
                        first_occurrence(t, b),
                    );
                }
                let name = self_key(groups, gi).clone();
                names.push(name);
                offs.push(off);
            },
            None => {
                proof {
                    let b = bracketed_placeholder(gs[gi as int].0);
                    assert(!occurs_in(t, b));
                    assert(occ_list(t, gs.take(gi + 1)) == pre);
                }
            },
        }
        gi = gi + 1;
    }
    proof {
        assert(gs.take(gs.len() as int) =~= gs);
    }
    let ghost l = occ_list(t, gs);
    proof {
        assert(names@.len() == l.len());
        assert(forall|j: int| #![trigger names@[j]]
            0 <= j < l.len() ==> names@[j]@ == l[j].0);
        assert(forall|j: int| #![trigger offs@[j]]
            0 <= j < l.len() ==> offs@[j] as int == l[j].1);
    }
    let n = names.len();
    if n == 0 {
        return Err(RuleError::TemplateWithoutGroups);
    }
    let mut entries: Vec<OrderEntry> = Vec::new();
    let mut j: usize = 0;
    while j < n
        invariant
            j <= n,
            n == l.len(),
            entries@.len() == j,
            forall|jj: int|
                0 <= jj < j ==> #[trigger] entries@[jj].key@ == l[jj].0
                    && entries@[jj].pos as int == 1 + count_lt(l, l.len() as int, occ_key(l, jj)),
        decreases n - j,
    {
        let mut cnt: usize = 0;
        let mut m: usize = 0;
        while m < n
            invariant
                m <= n,
                n == l.len(),
                j < n,
                cnt <= m,
                cnt as int == count_lt(l, m as int, occ_key(l, j as int)),
            decreases n - m,
        {
            proof {
                assert(offs@[m as int] as int == l[m as int].1);
                assert(offs@[j as int] as int == l[j as int].1);
                assert(occ_key(l, m as int) == (offs@[m as int] as int, m as int));
                assert(occ_key(l, j as int) == (offs@[j as int] as int, j as int));
                assert(count_lt(l, m + 1, occ_key(l, j as int)) == count_lt(
                    l,
                    m as int,
                    occ_key(l, j as int),
                ) + if key_lt(occ_key(l, m as int), occ_key(l, j as int)) {
                    1int
                } else {
                    0int
                });
            }
            if offs[m] < offs[j] || (offs[m] == offs[j] && m < j) {
                cnt = cnt + 1;
            }
            m = m + 1;
        }
        proof {
            lemma_count_lt_self(l, l.len() as int, j as int);
        }
        proof {
            assert(names@[j as int]@ == l[j as int].0);
        }
        let name = names[j].clone();
        entries.push(OrderEntry { key: name, pos: cnt + 1 });
        proof {
            assert(entries@[j as int].key@ == l[j as int].0);
            assert(entries@[j as int].pos as int == 1 + count_lt(l, l.len() as int, occ_key(
                l,
                j as int,
            )));
        }
        j = j + 1;
    }
    let om = GroupOrder { entries };
    proof {
        assert(om@ =~= group_order_spec(t, gs));
        assert forall|jj: int| 0 <= jj < om@.len() implies 1 <= #[trigger] om@[jj].1
            <= om@.len() by {
            lemma_count_lt_bound(l, l.len() as int, occ_key(l, jj));
            lemma_count_lt_self(l, l.len() as int, jj);
        }
        assert forall|j1: int, j2: int| 0 <= j1 < j2 < om@.len() implies om@[j1].1
            != om@[j2].1 by {
            let k1 = occ_key(l, j1);
            let k2 = occ_key(l, j2);
            if key_lt(k1, k2) {
                lemma_count_lt_strict(l, l.len() as int, j1, k2);
            } else {
                assert(key_lt(k2, k1));
                lemma_count_lt_strict(l, l.len() as int, j2, k1);
            }
        }
        assert forall|p: int| 1 <= p <= om@.len() implies #[trigger] has_pos(om@, p) by {
            lemma_rank_surjective(l, l.len() as int, p - 1);
            let i = choose|i: int|
                0 <= i < l.len() && count_lt(l, l.len() as int, #[trigger] occ_key(l, i)) == p - 1;
            assert(om@[i].1 == p);
        }
        assert forall|j1: int, j2: int|
            #![trigger om@[j1].1, om@[j2].1]
            0 <= j1 < om@.len() && 0 <= j2 < om@.len() implies (om@[j1].1 < om@[j2].1 <==> key_lt(
            occ_key(l, j1),
            occ_key(l, j2),
        )) by {
            let k1 = occ_key(l, j1);
            let k2 = occ_key(l, j2);
            if key_lt(k1, k2) {
                lemma_count_lt_strict(l, l.len() as int, j1, k2);
            } else if k1 == k2 {
                assert(j1 == j2);
            } else {
                assert(key_lt(k2, k1));
                lemma_count_lt_strict(l, l.len() as int, j2, k1);
            }
        }
    }
    Ok(om)
}

/// Law: order assignment is a function of the template and the declared
/// groups alone — compiling the same raw template against the same groups a
/// second time yields the identical order mapping.
pub proof fn lemma_group_order_deterministic(
    template: Seq<char>,
    gs: Seq<(Seq<char>, Seq<char>)>,
    om1: Seq<(Seq<char>, int)>,
    om2: Seq<(Seq<char>, int)>,
)
    requires
        om1 == group_order_spec(template, gs),
        om2 == group_order_spec(template, gs),
    ensures
        om1 == om2,
{
}

/// The occurrence list reads only the group names, never their fragments.
proof fn lemma_occ_list_keys_only(
    template: Seq<char>,
    gs1: Seq<(Seq<char>, Seq<char>)>,
    gs2: Seq<(Seq<char>, Seq<char>)>,
)
    requires
        gs1.len() == gs2.len(),
        forall|m: int| #![trigger gs1[m]] 0 <= m < gs1.len() ==> gs1[m].0 == gs2[m].0,
    ensures
        occ_list(template, gs1) == occ_list(template, gs2),
    decreases gs1.len(),
{
    if gs1.len() > 0 {
        assert(forall|m: int| #![trigger gs1.drop_last()[m]]
            0 <= m < gs1.len() - 1 ==> gs1.drop_last()[m].0 == gs2.drop_last()[m].0);
        lemma_occ_list_keys_only(template, gs1.drop_last(), gs2.drop_last());
        assert(gs1.last().0 == gs2.last().0);
    }
}

/// Law: order assignment never consults the groups' regex fragments — two
/// group declarations with the same names in the same order compile to the
/// same order mapping, whatever their fragments.
pub proof fn lemma_order_ignores_fragments(
    template: Seq<char>,
    gs1: Seq<(Seq<char>, Seq<char>)>,
    gs2: Seq<(Seq<char>, Seq<char>)>,
)
    requires
        gs1.len() == gs2.len(),
        forall|m: int| #![trigger gs1[m]] 0 <= m < gs1.len() ==> gs1[m].0 == gs2[m].0,
    ensures
        group_order_spec(template, gs1) == group_order_spec(template, gs2),
{
    lemma_occ_list_keys_only(template, gs1, gs2);
}

/// One full substitution pass of the output rule over the entries, in order:
/// trim the working string, then replace every occurrence of the bracketed key
/// by the trimmed value.
pub open spec fn subst_pass(t: Seq<char>, entries: Seq<(Seq<char>, Seq<char>)>) -> Seq<char>
    decreases entries.len(),
{
    if entries.len() == 0 {
        t
    } else {
        subst_pass(
            replace_spec(
                trim_spec(t),
                bracketed_placeholder(entries[0].0),
                trim_spec(entries[0].1),
            ),
            entries.skip(1),
        )
    }
}

/// The rendered output template: substitution, then separator normalization.
pub open spec fn render_spec(t: Seq<char>, entries: Seq<(Seq<char>, Seq<char>)>) -> Seq<char> {
    normalize_spec(subst_pass(t, entries))
}

/// Law: a rendered template holds no stray separator — no `|`, `/` or `.`
/// with a blank directly before or after it — whenever the substitution pass
/// leaves no consecutive blanks, as it does when template and substituted
/// values carry none.
pub proof fn lemma_render_no_stray(t: Seq<char>, entries: Seq<(Seq<char>, Seq<char>)>)
    requires
        crate::text::no_double_space(subst_pass(t, entries)),
    ensures
        crate::text::no_stray_separator(render_spec(t, entries)),
{
    crate::text::lemma_normalize_no_stray(subst_pass(t, entries));
}

/// Input-template expansion: plain substitution of each bracketed key by its
/// regex fragment, without trimming or normalization.
pub open spec fn input_subst(t: Seq<char>, entries: Seq<(Seq<char>, Seq<char>)>) -> Seq<char>
    decreases entries.len(),
{
    if entries.len() == 0 {
        t
    } else {
        input_subst(replace_spec(t, bracketed_placeholder(entries[0].0), entries[0].1), entries.skip(1))
    }
}

/// Substitute every field into the template, trimming values, then collapse
/// separator artifacts left by empty fields.
#[verifier::loop_isolation(false)]
pub fn apply_output_rule(to_str: &mut String, replacements: &Dict)
    ensures
        final(to_str)@ == render_spec(old(to_str)@, replacements@),
{
    let ghost entries = replacements@;
    let mut cur: Vec<char> = crate::text::str_to_chars(to_str.as_str());
    let mut i: usize = 0;
    proof {
        assert(entries.skip(0) =~= entries);
    }
    while i < replacements.entries.len()
        invariant
            i <= entries.len(),
            subst_pass(old(to_str)@, entries) == subst_pass(cur@, entries.skip(i as int)),
        decreases entries.len() - i,
    {
        let ghost rest = entries.skip(i as int);
        let ghost prev = cur@;
        proof {
            assert(rest[0] == entries[i as int]);
            assert(rest.skip(1) =~= entries.skip(i + 1));
        }
        let trimmed = crate::text::trim_chars(&cur);
        let b = with_brackets(self_key(replacements, i).as_str());
        let bchars = crate::text::str_to_chars(b.as_str());
        let vchars = crate::text::str_to_chars(self_value(replacements, i).as_str());
        let vtrim = crate::text::trim_chars(&vchars);
        cur = replace_all(&trimmed, &bchars, &vtrim);
        proof {
            assert(cur@ == replace_spec(
                trim_spec(prev),
                bracketed_placeholder(entries[i as int].0),
                trim_spec(entries[i as int].1),
            ));
            assert(subst_pass(prev, rest) == subst_pass(cur@, rest.skip(1)));
        }
        i = i + 1;
    }
    proof {
        assert(entries.skip(i as int) =~= Seq::<(Seq<char>, Seq<char>)>::empty());
        assert(subst_pass(cur@, Seq::empty()) == cur@);
    }
    let fin = crate::text::normalize_seps(&cur);
    *to_str = crate::text::chars_to_string(&fin);
}

/// Substitute every group's regex fragment into the raw input template.
#[verifier::loop_isolation(false)]
pub fn apply_input_groups(to_str: &mut String, replacements: &Dict)
    ensures
        final(to_str)@ == input_subst(old(to_str)@, replacements@),
{
    let ghost entries = replacements@;
    let mut cur: Vec<char> = crate::text::str_to_chars(to_str.as_str());
    let mut i: usize = 0;
    proof {
        assert(entries.skip(0) =~= entries);
    }
    while i < replacements.entries.len()
        invariant
            i <= entries.len(),
            input_subst(old(to_str)@, entries) == input_subst(cur@, entries.skip(i as int)),
        decreases entries.len() - i,
    {
        let ghost rest = entries.skip(i as int);
        let ghost prev = cur@;
        proof {
            assert(rest[0] == entries[i as int]);
            assert(rest.skip(1) =~= entries.skip(i + 1));
        }
        let b = with_brackets(self_key(replacements, i).as_str());
        let bchars = crate::text::str_to_chars(b.as_str());
        let vchars = crate::text::str_to_chars(self_value(replacements, i).as_str());
        cur = replace_all(&cur, &bchars, &vchars);
        proof {
            assert(cur@ == replace_spec(
                prev,
                bracketed_placeholder(entries[i as int].0),
                entries[i as int].1,
            ));
            assert(input_subst(prev, rest) == input_subst(cur@, rest.skip(1)));
        }
        i = i + 1;
    }
    proof {
        assert(entries.skip(i as int) =~= Seq::<(Seq<char>, Seq<char>)>::empty());
        assert(input_subst(cur@, Seq::empty()) == cur@);
    }
    *to_str = crate::text::chars_to_string(&cur);
}

// Helper to read an entry's value without moving out of the vector.
fn self_value(d: &Dict, i: usize) -> (r: &String)
    requires
        i < d@.len(),
    ensures
        r@ == d@[i as int].1,
{
    &d.entries[i].value
}


/// The compiled rule configuration for one run.
#[derive(Debug)]
pub struct Ruleset {
    pub groups: Dict,
    pub rearranges: Dict,
    pub recheck: String,
    pub input: String,
    pub output: String,
    pub index: String,
    pub input_order: GroupOrder,
}

/// The mathematical content of a ruleset.
pub ghost struct RulesetView {
    pub groups: Seq<(Seq<char>, Seq<char>)>,
    pub rearranges: Seq<(Seq<char>, Seq<char>)>,
    pub recheck: Seq<char>,
    pub input: Seq<char>,
    pub output: Seq<char>,
    pub index: Seq<char>,
    pub input_order: Seq<(Seq<char>, int)>,
}

impl Ruleset {
    pub open spec fn view(self) -> RulesetView {
        RulesetView {
            groups: self.groups@,
            rearranges: self.rearranges@,
            recheck: self.recheck@,
            input: self.input@,
            output: self.output@,
            index: self.index@,
            input_order: self.input_order@,
        }
    }
}

/// The built-in raw input template.
pub open spec fn default_template() -> Seq<char> {
    "{group}/{sample} ?{kit}{variation}?\\.{extension}"@
}

/// The built-in group fragments, in declaration order.
pub open spec fn default_groups() -> Seq<(Seq<char>, Seq<char>)> {
    seq![
        ("group"@, "([a-zA-Z0-9 ]*)"@),
        ("sample"@, "([a-zA-Z0-9]*)"@),
        ("kit"@, "([a-zA-Z0-9]*)"@),
        ("variation"@, "([a-zA-Z0-9 ]*)"@),
        ("extension"@, "([wav|WAV|mp3|MP3]*)"@),
    ]
}

/// The built-in ruleset.
pub open spec fn default_ruleset_view() -> RulesetView {
    RulesetView {
        groups: default_groups(),
        rearranges: seq![("sample"@, "kit"@)],
        recheck: "^([0-9a-zA-Z]{1,2})$"@,
        input: input_subst(default_template(), default_groups()),
        output: "{kit}/{sample} {variation}.{extension}"@,
        index: "kit"@,
        input_order: group_order_spec(default_template(), default_groups()),
    }
}

/// Build the built-in ruleset: five groups captured out of
/// `group/sample kit[variation].extension` shaped paths, kits indexed by the
/// `kit` group, and a rearrange of `sample` gated on short alphanumeric values.
pub fn setup_default_ruleset() -> (r: Ruleset)
    ensures
        r@ == default_ruleset_view(),
{
    let mut groups = Dict::new();
    groups.entries.push(Entry { key: "group".to_owned(), value: "([a-zA-Z0-9 ]*)".to_owned() });
    groups.entries.push(Entry { key: "sample".to_owned(), value: "([a-zA-Z0-9]*)".to_owned() });
    groups.entries.push(Entry { key: "kit".to_owned(), value: "([a-zA-Z0-9]*)".to_owned() });
    groups.entries.push(
        Entry { key: "variation".to_owned(), value: "([a-zA-Z0-9 ]*)".to_owned() },
    );
    groups.entries.push(
        Entry { key: "extension".to_owned(), value: "([wav|WAV|mp3|MP3]*)".to_owned() },
    );
    proof {
        assert(groups@.len() == 5);
        assert(groups@ =~~= default_groups());
    }
    let mut rearranges = Dict::new();
    rearranges.entries.push(Entry { key: "sample".to_owned(), value: "kit".to_owned() });
    proof {
        assert(rearranges@ =~~= seq![("sample"@, "kit"@)]);
    }
    let raw_input = "{group}/{sample} ?{kit}{variation}?\\.{extension}";
    proof {
        reveal_strlit("{group}/{sample} ?{kit}{variation}?\\.{extension}");
        reveal_strlit("group");
        let t = default_template();
        let b = bracketed_placeholder("group"@);
        assert(b.len() == 7);
        assert(t.subrange(0, 7) =~= b);
        assert(crate::text::occurs_at(t, b, 0));
        assert(occurs_in(t, b));
        lemma_occ_list_nonempty(t, default_groups(), 0);
    }
    let order = match get_group_order(raw_input, &groups) {
        Ok(om) => om,
        Err(_) => vstd::pervasive::unreached(),
    };
    let mut input = raw_input.to_owned();
    apply_input_groups(&mut input, &groups);
    Ruleset {
        input,
        output: "{kit}/{sample} {variation}.{extension}".to_owned(),
        input_order: order,
        index: "kit".to_owned(),
        rearranges,
        recheck: "^([0-9a-zA-Z]{1,2})$".to_owned(),
        groups,
    }
}

/// The view of an optional configuration section.
pub open spec fn section_view(o: Option<Seq<(Seq<char>, Seq<char>)>>) -> Seq<
    (Seq<char>, Seq<char>),
> {
    match o {
        None => Seq::empty(),
        Some(s) => s,
    }
}

/// Some declared group's placeholder occurs more than once in the template:
/// capture positions would no longer be well defined, so such a template is
/// rejected when a ruleset is built from a configuration source.
pub open spec fn has_duplicate_placeholder(
    template: Seq<char>,
    gs: Seq<(Seq<char>, Seq<char>)>,
) -> bool {
    exists|m: int|
        0 <= m < gs.len() && occurs_twice(template, bracketed_placeholder(#[trigger] gs[m].0))
}

/// A rearrange rule names a group that the groups section does not declare.
pub open spec fn rearrange_refs_unknown(
    gs: Seq<(Seq<char>, Seq<char>)>,
    rearr: Seq<(Seq<char>, Seq<char>)>,
) -> bool {
    exists|m: int| 0 <= m < rearr.len() && lookup(gs, #[trigger] rearr[m].0) is None
}

/// No declared group's placeholder occurs in the template.
pub open spec fn no_group_occurs(template: Seq<char>, gs: Seq<(Seq<char>, Seq<char>)>) -> bool {
    forall|m: int|
        0 <= m < gs.len() ==> !occurs_in(template, bracketed_placeholder(#[trigger] gs[m].0))
}

/// One conditional finding of the validation pass.
pub open spec fn err_when(c: bool, e: RuleErrorView) -> Seq<RuleErrorView> {
    if c {
        seq![e]
    } else {
        Seq::empty()
    }
}

/// The first rearrange rule naming an undeclared group, in rule order.
pub open spec fn first_unknown_rearrange(
    gs: Seq<(Seq<char>, Seq<char>)>,
    rearr: Seq<(Seq<char>, Seq<char>)>,
) -> Seq<char>
    decreases rearr.len(),
{
    if rearr.len() == 0 {
        Seq::empty()
    } else if lookup(gs, rearr[0].0) is None {
        rearr[0].0
    } else {
        first_unknown_rearrange(gs, rearr.skip(1))
    }
}

proof fn lemma_first_unknown_at(
    gs: Seq<(Seq<char>, Seq<char>)>,
    rearr: Seq<(Seq<char>, Seq<char>)>,
    m: int,
)
    requires
        0 <= m < rearr.len(),
        lookup(gs, rearr[m].0) is None,
        forall|k: int| 0 <= k < m ==> lookup(gs, #[trigger] rearr[k].0) is Some,
    ensures
        first_unknown_rearrange(gs, rearr) == rearr[m].0,
    decreases m,
{
    if m > 0 {
        assert(forall|k: int|
            0 <= k < m - 1 ==> rearr.skip(1)[k] == #[trigger] rearr[k + 1]);
        lemma_first_unknown_at(gs, rearr.skip(1), m - 1);
    }
}

/// The first declared group whose placeholder repeats in the template, in
/// declaration order.
pub open spec fn first_duplicate_group(
    template: Seq<char>,
    gs: Seq<(Seq<char>, Seq<char>)>,
) -> Seq<char>
    decreases gs.len(),
{
    if gs.len() == 0 {
        Seq::empty()
    } else if occurs_twice(template, bracketed_placeholder(gs[0].0)) {
        gs[0].0
    } else {
        first_duplicate_group(template, gs.skip(1))
    }
}

proof fn lemma_first_duplicate_at(template: Seq<char>, gs: Seq<(Seq<char>, Seq<char>)>, m: int)
    requires
        0 <= m < gs.len(),
        occurs_twice(template, bracketed_placeholder(gs[m].0)),
        forall|k: int|
            0 <= k < m ==> !occurs_twice(template, bracketed_placeholder(#[trigger] gs[k].0)),
    ensures
        first_duplicate_group(template, gs) == gs[m].0,
    decreases m,
{
    if m > 0 {
        assert(forall|k: int| 0 <= k < m - 1 ==> gs.skip(1)[k] == #[trigger] gs[k + 1]);
        lemma_first_duplicate_at(template, gs.skip(1), m - 1);
    }
}

/// The value of a general-section key, or empty text when it is absent.
pub open spec fn general_value(general: Seq<(Seq<char>, Seq<char>)>, key: Seq<char>) -> Seq<char> {
    match lookup(general, key) {
        None => Seq::empty(),
        Some(v) => v,
    }
}

/// Every problem the validation pass finds in a configuration source, in a
/// fixed order: the groups section and the required general keys must be
/// present, the index group and every rearranged group must be declared, no
/// group's placeholder may repeat in the input template, and the template must
/// reference at least one declared group.
pub open spec fn custom_ruleset_errors(
    general: Seq<(Seq<char>, Seq<char>)>,
    groups_opt: Option<Seq<(Seq<char>, Seq<char>)>>,
    rearr_opt: Option<Seq<(Seq<char>, Seq<char>)>>,
) -> Seq<RuleErrorView> {
    let g_missing = groups_opt is None;
    let in_missing = lookup(general, "input"@) is None;
    let out_missing = lookup(general, "output"@) is None;
    let ix_missing = lookup(general, "index"@) is None;
    let gs = section_view(groups_opt);
    let rearr = section_view(rearr_opt);
    let input_t = general_value(general, "input"@);
    let ix = general_value(general, "index"@);
    err_when(g_missing, RuleErrorView::MissingGroupsSection) + err_when(
        in_missing,
        RuleErrorView::MissingInput,
    ) + err_when(out_missing, RuleErrorView::MissingOutput) + err_when(
        ix_missing,
        RuleErrorView::MissingIndex,
    ) + err_when(
        !g_missing && !ix_missing && lookup(gs, ix) is None,
        RuleErrorView::UnknownIndexGroup(ix),
    ) + err_when(
        !g_missing && rearrange_refs_unknown(gs, rearr),
        RuleErrorView::UnknownRearrangeGroup(first_unknown_rearrange(gs, rearr)),
    ) + err_when(
        !g_missing && !in_missing && has_duplicate_placeholder(input_t, gs),
        RuleErrorView::DuplicatePlaceholder(first_duplicate_group(input_t, gs)),
    ) + err_when(
        !g_missing && !in_missing && no_group_occurs(input_t, gs),
        RuleErrorView::TemplateWithoutGroups,
    )
}

/// The ruleset a valid configuration source builds: the given groups and
/// rearranges, `recheck` defaulting to the empty expression, the input
/// template expanded over the group fragments, and the capture order compiled
/// from the raw template.
pub open spec fn custom_ruleset_view(
    general: Seq<(Seq<char>, Seq<char>)>,
    gs: Seq<(Seq<char>, Seq<char>)>,
    rearr: Seq<(Seq<char>, Seq<char>)>,
) -> RulesetView {
    RulesetView {
        groups: gs,
        rearranges: rearr,
        recheck: general_value(general, "recheck"@),
        input: input_subst(general_value(general, "input"@), gs),
        output: general_value(general, "output"@),
        index: general_value(general, "index"@),
        input_order: group_order_spec(general_value(general, "input"@), gs),
    }
}

/// Law: a configuration source without a rearrange section is validated and
/// built exactly as one whose rearrange section is empty.
pub proof fn lemma_missing_rearrange_is_empty(
    general: Seq<(Seq<char>, Seq<char>)>,
    groups_opt: Option<Seq<(Seq<char>, Seq<char>)>>,
)
    ensures
        custom_ruleset_errors(general, groups_opt, None) == custom_ruleset_errors(
            general,
            groups_opt,
            Some(Seq::empty()),
        ),
        custom_ruleset_view(general, section_view(groups_opt), section_view(None))
            == custom_ruleset_view(
            general,
            section_view(groups_opt),
            section_view(Some(Seq::empty())),
        ),
{
    assert(section_view(None) =~= section_view(Some(Seq::empty())));
}

/// Build a ruleset from a parsed configuration source: the general section's
/// keys, the groups section, and the optional rearrange section. The
/// validation pass runs first and reports every problem it finds, not only
/// the first.
#[verifier::rlimit(60)]
#[verifier::loop_isolation(false)]
pub fn setup_custom_ruleset(general: &Dict, groups: Option<&Dict>, rearranges: Option<&Dict>) -> (r:
    Result<Ruleset, Vec<RuleError>>)
    ensures
        ({
            let gov = match groups {
                None => None,
                Some(g) => Some(g@),
            };
            let rov = match rearranges {
                None => None,
                Some(g) => Some(g@),
            };
            match r {
                Ok(rs) => custom_ruleset_errors(general@, gov, rov) == Seq::<
                    RuleErrorView,
                >::empty() && rs@ == custom_ruleset_view(
                    general@,
                    section_view(gov),
                    section_view(rov),
                ),
                Err(es) => es@.len() > 0 && errors_view(es@) == custom_ruleset_errors(
                    general@,
                    gov,
                    rov,
                ),
            }
        }),
{
    let ghost gov = match groups {
        None => None,
        Some(g) => Some(g@),
    };
    let ghost rov = match rearranges {
        None => None,
        Some(g) => Some(g@),
    };
    let mut errors: Vec<RuleError> = Vec::new();
    match groups {
        None => errors.push(RuleError::MissingGroupsSection),
        Some(_) => {},
    }
    let input_opt: Option<String> = match general.get("input") {
        None => {
            errors.push(RuleError::MissingInput);
            None
        },
        Some(s) => Some(s.clone()),
    };
    let output_opt: Option<String> = match general.get("output") {
        None => {
            errors.push(RuleError::MissingOutput);
            None
        },
        Some(s) => Some(s.clone()),
    };
    let index_opt: Option<String> = match general.get("index") {
        None => {
            errors.push(RuleError::MissingIndex);
            None
        },
        Some(s) => Some(s.clone()),
    };
    if let Some(gs) = groups {
        match &index_opt {
            Some(ix) => {
                if !gs.contains_key(ix.as_str()) {
                    errors.push(RuleError::UnknownIndexGroup(ix.clone()));
                }
            },
            None => {},
        }
        match rearranges {
            Some(rd) => {
                match rearrange_scan(gs, rd) {
                    Some(g) => errors.push(RuleError::UnknownRearrangeGroup(g)),
                    None => {},
                }
            },
            None => {
                proof {
                    assert(!rearrange_refs_unknown(gs@, section_view(rov)));
                }
            },
        }
        match &input_opt {
            Some(inp) => {
                let tchars = crate::text::str_to_chars(inp.as_str());
                let (dup, any) = template_scan(&tchars, gs);
                match dup {
                    Some(g) => errors.push(RuleError::DuplicatePlaceholder(g)),
                    None => {},
                }
                if !any {
                    errors.push(RuleError::TemplateWithoutGroups);
                }
            },
            None => {},
        }
    }
    proof {
        assert(errors_view(errors@) =~= custom_ruleset_errors(general@, gov, rov));
    }
    if errors.len() > 0 {
        return Err(errors);
    }
    let gs: &Dict = match groups {
        None => vstd::pervasive::unreached(),
        Some(g) => g,
    };
    let raw_input: String = match input_opt {
        None => vstd::pervasive::unreached(),
        Some(s) => s,
    };
    let output: String = match output_opt {
        None => vstd::pervasive::unreached(),
        Some(s) => s,
    };
    let index: String = match index_opt {
        None => vstd::pervasive::unreached(),
        Some(s) => s,
    };
    let recheck: String = match general.get("recheck") {
        None => "".to_owned(),
        Some(s) => s.clone(),
    };
    proof {
        reveal_strlit("");
        assert(""@ =~= Seq::<char>::empty());
        assert(recheck@ == general_value(general@, "recheck"@));
        assert(custom_ruleset_errors(general@, gov, rov) =~= Seq::<RuleErrorView>::empty());
        assert(errors_view(errors@).len() == 0);
        assert(!no_group_occurs(raw_input@, gs@));
        let m = choose|m: int|
            0 <= m < gs@.len() && occurs_in(raw_input@, bracketed_placeholder(#[trigger] gs@[m].0));
        lemma_occ_list_nonempty(raw_input@, gs@, m);
    }
    let order = match get_group_order(raw_input.as_str(), gs) {
        Ok(om) => om,
        Err(_) => vstd::pervasive::unreached(),
    };
    let rearr: Dict = match rearranges {
        None => Dict::new(),
        Some(d) => d.duplicate(),
    };
    let mut input = raw_input;
    apply_input_groups(&mut input, gs);
    Ok(
        Ruleset {
            input,
            output,
            rearranges: rearr,
            recheck,
            input_order: order,
            index,
            groups: gs.duplicate(),
        },
    )
}

/// The first rearrange rule naming an undeclared group, if any.
#[verifier::loop_isolation(false)]
fn rearrange_scan(gs: &Dict, rd: &Dict) -> (r: Option<String>)
    ensures
        match r {
            Some(g) => rearrange_refs_unknown(gs@, rd@) && g@ == first_unknown_rearrange(
                gs@,
                rd@,
            ),
            None => !rearrange_refs_unknown(gs@, rd@),
        },
{
    let mut m: usize = 0;
    while m < rd.entries.len()
        invariant
            m <= rd@.len(),
            forall|k: int| 0 <= k < m ==> lookup(gs@, #[trigger] rd@[k].0) is Some,
        decreases rd@.len() - m,
    {
        if !gs.contains_key(self_key(rd, m).as_str()) {
            proof {
                assert(lookup(gs@, rd@[m as int].0) is None);
                lemma_first_unknown_at(gs@, rd@, m as int);
            }
            return Some(self_key(rd, m).clone());
        }
        m = m + 1;
    }
    None
}

/// The first declared group whose placeholder repeats in the template, if
/// any, and whether any declared placeholder occurs at all.
#[verifier::loop_isolation(false)]
fn template_scan(tchars: &Vec<char>, gs: &Dict) -> (r: (Option<String>, bool))
    ensures
        match r.0 {
            Some(g) => has_duplicate_placeholder(tchars@, gs@) && g@ == first_duplicate_group(
                tchars@,
                gs@,
            ),
            None => !has_duplicate_placeholder(tchars@, gs@),
        },
        r.1 == !no_group_occurs(tchars@, gs@),
{
    let ghost t = tchars@;
    let mut any = false;
    let mut gi: usize = 0;
    while gi < gs.entries.len()
        invariant
            gi <= gs@.len(),
            forall|m: int|
                0 <= m < gi ==> !occurs_twice(t, bracketed_placeholder(#[trigger] gs@[m].0)),
            any ==> exists|m: int|
                0 <= m < gs@.len() && occurs_in(t, bracketed_placeholder(#[trigger] gs@[m].0)),
            !any ==> forall|m: int|
                0 <= m < gi ==> !occurs_in(t, bracketed_placeholder(#[trigger] gs@[m].0)),
        decreases gs@.len() - gi,
    {
        let bname = with_brackets(self_key(gs, gi).as_str());
        let bchars = crate::text::str_to_chars(bname.as_str());
        proof {
            assert(bchars@ == bracketed_placeholder(gs@[gi as int].0));
        }
        match crate::text::find_sub(tchars, &bchars) {
            None => {
                proof {
                    assert(!occurs_twice(t, bchars@));
                }
            },
            Some(off) => {
                proof {
                    assert(crate::text::occurs_at(t, bchars@, off as int));
                    assert(bchars@.len() >= 2);
                    assert(off + 2 <= tchars@.len());
                    assert(off + 1 <= tchars.len());
                }
                any = true;
                match crate::text::find_from(tchars, &bchars, off + 1) {
                    Some(off2) => {
                        proof {
                            assert(crate::text::occurs_at(t, bchars@, off2 as int));
                            assert(off < off2);
                            assert(occurs_twice(t, bchars@));
                            assert(has_duplicate_placeholder(t, gs@)) by {
                                assert(occurs_twice(
                                    t,
                                    bracketed_placeholder(gs@[gi as int].0),
                                ));
                            }
                            lemma_first_duplicate_at(t, gs@, gi as int);
                            assert(!no_group_occurs(t, gs@)) by {
                                assert(occurs_in(t, bracketed_placeholder(gs@[gi as int].0)));
                            }
                        }
                        return (Some(self_key(gs, gi).clone()), true);
                    },
                    None => {
                        proof {
                            assert(!occurs_twice(t, bchars@)) by {
                                if occurs_twice(t, bchars@) {
                                    let (i, j) = choose|i: int, j: int|
                                        i < j && #[trigger] crate::text::occurs_at(t, bchars@, i)
                                            && #[trigger] crate::text::occurs_at(t, bchars@, j);
                                    assert(i >= off);
                                    assert(j >= off + 1);
                                    assert(!crate::text::occurs_at(t, bchars@, j));
                                }
                            }
                        }
                    },
                }
            },
        }
        gi = gi + 1;
    }
    (None, any)
}

/// The fields extracted from one matched path: each ordered group's capture,
/// trimmed, keyed by the group name; otherwise the first group whose capture
/// is unavailable.
pub open spec fn fields_spec(
    pattern: Seq<char>,
    text: Seq<char>,
    order: Seq<(Seq<char>, int)>,
) -> Result<Seq<(Seq<char>, Seq<char>)>, Seq<char>>
    decreases order.len(),
{
    if order.len() == 0 {
        Ok(Seq::empty())
    } else {
        match fields_spec(pattern, text, order.drop_last()) {
            Err(g) => Err(g),
            Ok(pre) => match crate::rx::regex_capture(pattern, text, order.last().1) {
                None => Err(order.last().0),
                Some(c) => Ok(dict_put(pre, order.last().0, trim_spec(c))),
            },
        }
    }
}

/// Read every ordered capture out of a match of `pattern` on `text`, trimming
/// each, into a fresh field mapping.
#[verifier::loop_isolation(false)]
pub fn map_capture(pattern: &str, text: &str, input_order: &GroupOrder) -> (r: Result<
    Dict,
    RuleError,
>)
    requires
        crate::rx::regex_ok(pattern@),
    ensures
        match r {
            Ok(d) => fields_spec(pattern@, text@, input_order@) == Ok::<
                Seq<(Seq<char>, Seq<char>)>,
                Seq<char>,
            >(d@),
            Err(e) => {
                &&& fields_spec(pattern@, text@, input_order@) is Err
                &&& e@ == RuleErrorView::CaptureUnavailable(
                    fields_spec(pattern@, text@, input_order@)->Err_0,
                )
            },
        },
{
    let ghost order = input_order@;
    let mut d = Dict::new();
    let mut i: usize = 0;
    proof {
        assert(order.take(0) =~= Seq::<(Seq<char>, int)>::empty());
    }
    while i < input_order.entries.len()
        invariant
            i <= order.len(),
            fields_spec(pattern@, text@, order.take(i as int)) == Ok::<
                Seq<(Seq<char>, Seq<char>)>,
                Seq<char>,
            >(d@),
        decreases order.len() - i,
    {
        proof {
            assert(order.take(i + 1).drop_last() =~= order.take(i as int));
            assert(order.take(i + 1).last() == order[i as int]);
        }
        let pos = input_order.entries[i].pos;
        proof {
            assert(order[i as int].1 == pos as int);
            assert(order[i as int].0 == input_order.entries@[i as int].key@);
        }
        match crate::rx::re_capture(pattern, text, pos) {
            None => {
                let g = input_order.entries[i].key.clone();
                proof {
                    assert(fields_spec(pattern@, text@, order.take(i + 1)) == Err::<
                        Seq<(Seq<char>, Seq<char>)>,
                        Seq<char>,
                    >(g@));
                    lemma_fields_err_persists(pattern@, text@, order, i + 1, g@);
                }
                return Err(RuleError::CaptureUnavailable(g));
            },
            Some(c) => {
                let cchars = crate::text::str_to_chars(c.as_str());
                let ctrim = crate::text::trim_chars(&cchars);
                let cval = crate::text::chars_to_string(&ctrim);
                d.insert(input_order.entries[i].key.as_str(), cval);
            },
        }
        i = i + 1;
    }
    proof {
        assert(order.take(order.len() as int) =~= order);
    }
    Ok(d)
}

/// Once extraction fails on a prefix of the order, the whole order fails on
/// the same group.
proof fn lemma_fields_err_persists(
    pattern: Seq<char>,
    text: Seq<char>,
    order: Seq<(Seq<char>, int)>,
    k: int,
    g: Seq<char>,
)
    requires
        0 <= k <= order.len(),
        fields_spec(pattern, text, order.take(k)) == Err::<
            Seq<(Seq<char>, Seq<char>)>,
            Seq<char>,
        >(g),
    ensures
        fields_spec(pattern, text, order) == Err::<Seq<(Seq<char>, Seq<char>)>, Seq<char>>(g),
    decreases order.len() - k,
{
    if k == order.len() {
        assert(order.take(k) =~= order);
    } else {
        assert(order.take(k + 1).drop_last() =~= order.take(k));
        lemma_fields_err_persists(pattern, text, order, k + 1, g);
    }
}

} // verus!

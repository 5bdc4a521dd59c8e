//! The detection-rule corpus: a block of text whose paragraphs,
//! separated by dash lines, each carry a tag, a probe-request
//! template with escaped line breaks, and a needle to look for in
//! the response.  Malformed paragraphs are commentary and are
//! dropped, never an error.
use crate::text::chars_of;
use crate::text::one_char_vec;
use crate::text::replace_all;
use crate::text::replace_pat;
use crate::text::split_all;
use crate::text::split_pat;
use crate::text::string_from_chars;
use crate::text::sub_vec;
use crate::text::trim_spec;
use crate::text::trim_vec;
use crate::text::two_char_vec;
use vstd::prelude::*;

verus! {

/// One detection rule: a tag to record, the raw request to send, and
/// the needle whose presence in the response earns the tag.
pub struct DetectionRule {
    pub tag: String,
    pub template: String,
    pub needle: String,
}

/// The abstract content of a rule.
pub struct RuleView {
    pub tag: Seq<char>,
    pub template: Seq<char>,
    pub needle: Seq<char>,
}

impl View for DetectionRule {
    type V = RuleView;

    open spec fn view(&self) -> RuleView {
        RuleView { tag: self.tag@, template: self.template@, needle: self.needle@ }
    }
}

/// Length of the run of dashes that starts `s`.
pub open spec fn dash_run_len(s: Seq<char>) -> nat
    decreases s.len(),
{
    if s.len() > 0 && s[0] == '-' {
        1 + dash_run_len(s.skip(1))
    } else {
        0
    }
}

/// `s` begins with a paragraph delimiter: two or more dashes and a
/// line break.
pub open spec fn delim_here(s: Seq<char>) -> bool {
    &&& dash_run_len(s) >= 2
    &&& dash_run_len(s) < s.len()
    &&& s[dash_run_len(s) as int] == '\n'
}

/// Position of the first paragraph delimiter in `s`, if any.
pub open spec fn first_delim_start(s: Seq<char>) -> Option<nat>
    decreases s.len(),
{
    if s.len() == 0 {
        None
    } else if delim_here(s) {
        Some(0nat)
    } else {
        match first_delim_start(s.skip(1)) {
            None => None,
            Some(i) => Some((i + 1) as nat),
        }
    }
}

/// The paragraphs of the corpus: the pieces between delimiter lines.
pub open spec fn paragraphs(s: Seq<char>) -> Seq<Seq<char>>
    decreases s.len(),
{
    match first_delim_start(s) {
        None => seq![s],
        Some(i) => {
            let e = i + dash_run_len(s.skip(i as int)) + 1;
            if 0 < e <= s.len() {
                seq![s.take(i as int)] + paragraphs(s.skip(e as int))
            } else {
                seq![s]
            }
        },
    }
}

/// The field separator inside a paragraph: one blank line.
pub open spec fn blank_sep() -> Seq<char> {
    seq!['\n', '\n']
}

/// A template with escaped line breaks written out: `\r` and `\n`
/// pairs become the characters themselves, carriage returns first.
pub open spec fn unescape(s: Seq<char>) -> Seq<char> {
    replace_pat(replace_pat(s, seq!['\\', 'r'], seq!['\r']), seq!['\\', 'n'], seq!['\n'])
}

/// A paragraph with at least three blank-line-separated fields is a
/// rule; anything else is not data.
pub open spec fn wf_paragraph(p: Seq<char>) -> bool {
    split_pat(p, blank_sep()).len() >= 3
}

/// The rule a well-formed paragraph holds.
pub open spec fn rule_of_paragraph(p: Seq<char>) -> Option<RuleView> {
    let f = split_pat(p, blank_sep());
    if f.len() >= 3 {
        Some(RuleView { tag: f[0], template: unescape(f[1]), needle: trim_spec(f[2]) })
    } else {
        None
    }
}

/// The rules of a list of paragraphs, in order, skipping non-data.
pub open spec fn rules_from(ps: Seq<Seq<char>>) -> Seq<RuleView>
    decreases ps.len(),
{
    if ps.len() == 0 {
        seq![]
    } else {
        match rule_of_paragraph(ps[0]) {
            Some(r) => seq![r] + rules_from(ps.skip(1)),
            None => rules_from(ps.skip(1)),
        }
    }
}

/// Every rule the corpus text defines, in corpus order.
pub open spec fn rules_of(c: Seq<char>) -> Seq<RuleView> {
    rules_from(paragraphs(c))
}

/// A run of `k` dashes that then stops has `dash_run_len` exactly `k`.
proof fn lemma_dash_run(s: Seq<char>, k: int)
    requires
        0 <= k <= s.len(),
        forall|j: int| 0 <= j < k ==> s[j] == '-',
        k < s.len() ==> s[k] != '-',
    ensures
        dash_run_len(s) == k,
    decreases k,
{
    if k == 0 {
    } else {
        assert(s[0] == '-');
        lemma_dash_run(s.skip(1), k - 1);
    }
}

/// `first_delim_start` returns exactly the least position at which a
/// delimiter begins.
proof fn lemma_first_delim(s: Seq<char>)
    ensures
        match first_delim_start(s) {
            Some(i) => i < s.len() && delim_here(s.skip(i as int)) && (forall|j: int|
                0 <= j < i ==> !delim_here(s.skip(j))),
            None => forall|j: int| 0 <= j < s.len() ==> !delim_here(s.skip(j)),
        },
    decreases s.len(),
{
    if s.len() == 0 {
    } else if delim_here(s) {
        assert(s.skip(0) =~= s);
    } else {
        lemma_first_delim(s.skip(1));
        assert(s.skip(0) =~= s);
        assert forall|j: int| 1 <= j <= s.len() implies #[trigger] s.skip(1).skip(j - 1) =~= s.skip(
            j,
        ) by {}
        match first_delim_start(s.skip(1)) {
            None => {
                assert forall|j: int| 0 <= j < s.len() implies !delim_here(s.skip(j)) by {
                    if j >= 1 {
                        assert(s.skip(1).skip(j - 1) == s.skip(j));
                        assert(!delim_here(s.skip(1).skip(j - 1)));
                    }
                }
            },
            Some(i) => {
                assert(s.skip(1).skip(i as int) == s.skip(i + 1 as int));
                assert forall|j: int| 0 <= j < i + 1 implies !delim_here(s.skip(j)) by {
                    if j >= 1 {
                        assert(s.skip(1).skip(j - 1) == s.skip(j));
                        assert(!delim_here(s.skip(1).skip(j - 1)));
                    }
                }
            },
        }
    }
}

/// Length of the dash run starting at position `i` of `v`.
fn dash_run_at(v: &Vec<char>, i: usize) -> (r: usize)
    requires
        i <= v@.len(),
    ensures
        r == dash_run_len(v@.skip(i as int)),
        i + r <= v@.len(),
{
    let mut j: usize = i;
    while j < v.len() && v[j] == '-'
        invariant
            i <= j <= v@.len(),
            forall|t: int| i <= t < j ==> v@[t] == '-',
        decreases v@.len() - j,
    {
        j = j + 1;
    }
    proof {
        assert forall|t: int| 0 <= t < j - i implies v@.skip(i as int)[t] == '-' by {
            assert(v@.skip(i as int)[t] == v@[i + t]);
        }
        if (j - i) < v@.skip(i as int).len() {
            assert(v@.skip(i as int)[j - i] == v@[j as int]);
        }
        lemma_dash_run(v@.skip(i as int), j - i);
    }
    j - i
}

/// Start and end (one past the line break) of the first paragraph
/// delimiter at or after `from`.
fn find_delim_from(v: &Vec<char>, from: usize) -> (r: Option<(usize, usize)>)
    requires
        from <= v@.len(),
    ensures
        match r {
            Some((i, e)) => {
                &&& from <= i < v@.len()
                &&& first_delim_start(v@.skip(from as int)) == Some((i - from) as nat)
                &&& e == i + dash_run_len(v@.skip(i as int)) + 1
                &&& i < e <= v@.len()
            },
            None => first_delim_start(v@.skip(from as int)) is None,
        },
{
    proof {
        lemma_first_delim(v@.skip(from as int));
    }
    let mut i: usize = from;
    while i < v.len()
        invariant
            from <= i <= v@.len(),
            forall|j: int| from <= j < i ==> !delim_here(v@.skip(j)),
        decreases v@.len() - i,
    {
        let run = dash_run_at(v, i);
        if run >= 2 && i + run < v.len() && v[i + run] == '\n' {
            proof {
                assert(v@.skip(i as int)[run as int] == v@[i + run]);
                assert(delim_here(v@.skip(i as int)));
                lemma_first_delim_found(v@, from as int, i as int);
            }
            return Some((i, i + run + 1));
        }
        proof {
            if delim_here(v@.skip(i as int)) {
                assert(v@.skip(i as int)[dash_run_len(v@.skip(i as int)) as int] == v@[i
                    + dash_run_len(v@.skip(i as int))]);
                assert(false);
            }
        }
        i = i + 1;
    }
    proof {
        assert forall|j: int| 0 <= j < v@.skip(from as int).len() implies !delim_here(
            v@.skip(from as int).skip(j),
        ) by {
            assert(v@.skip(from as int).skip(j) =~= v@.skip(from + j));
        }
        match first_delim_start(v@.skip(from as int)) {
            Some(k) => {
                assert(delim_here(v@.skip(from as int).skip(k as int)));
                assert(false);
            },
            None => {
            },
        }
    }
    None
}

/// A scan that found its first delimiter at `i` pins the spec search.
proof fn lemma_first_delim_found(s: Seq<char>, from: int, i: int)
    requires
        0 <= from <= i < s.len(),
        delim_here(s.skip(i)),
        forall|j: int| from <= j < i ==> !delim_here(s.skip(j)),
    ensures
        first_delim_start(s.skip(from)) == Some((i - from) as nat),
{
    lemma_first_delim(s.skip(from));
    assert forall|j: int| 0 <= j <= s.len() - from implies #[trigger] s.skip(from).skip(j) =~= s.skip(
        from + j,
    ) by {}
    match first_delim_start(s.skip(from)) {
        None => {
            assert(s.skip(from).skip(i - from) == s.skip(i));
            assert(false);
        },
        Some(k) => {
            if k < i - from {
                assert(s.skip(from).skip(k as int) == s.skip(from + k));
                assert(delim_here(s.skip(from + k)));
                assert(false);
            }
            if k > i - from {
                assert(s.skip(from).skip(i - from) == s.skip(i));
                assert(!delim_here(s.skip(from).skip(i - from)));
                assert(false);
            }
        },
    }
}

/// The paragraphs of `v`, as vectors, in order.
fn split_paragraphs(v: &Vec<char>) -> (r: Vec<Vec<char>>)
    ensures
        r@.map_values(|p: Vec<char>| p@) == paragraphs(v@),
{
    let mut r: Vec<Vec<char>> = Vec::new();
    let mut start: usize = 0;
    proof {
        assert(v@.skip(0) =~= v@);
        assert(r@.map_values(|p: Vec<char>| p@) + paragraphs(v@) =~= paragraphs(v@));
    }
    loop
        invariant
            start <= v@.len(),
            paragraphs(v@) == r@.map_values(|p: Vec<char>| p@) + paragraphs(v@.skip(start as int)),
        decreases v@.len() - start,
    {
        match find_delim_from(v, start) {
            Some((i, e)) => {
                proof {
                    let suf = v@.skip(start as int);
                    assert(suf.skip(i - start) =~= v@.skip(i as int));
                    assert(suf.take(i - start) =~= v@.subrange(start as int, i as int));
                    assert(suf.skip(e - start) =~= v@.skip(e as int));
                }
                let piece = sub_vec(v, start, i);
                let ghost old_r = r@;
                r.push(piece);
                proof {
                    assert(r@.map_values(|p: Vec<char>| p@) =~= old_r.map_values(
                        |p: Vec<char>| p@,
                    ).push(piece@));
                }
                start = e;
            },
            None => {
                let piece = sub_vec(v, start, v.len());
                let ghost old_r = r@;
                r.push(piece);
                proof {
                    assert(v@.skip(start as int) =~= v@.subrange(start as int, v@.len() as int));
                    assert(r@.map_values(|p: Vec<char>| p@) =~= old_r.map_values(
                        |p: Vec<char>| p@,
                    ).push(piece@));
                    assert(paragraphs(v@) =~= r@.map_values(|p: Vec<char>| p@));
                }
                return r;
            },
        }
    }
}

/// Reads the whole corpus: every rule of every well-formed paragraph,
/// in order; malformed paragraphs yield nothing and nothing fails.
pub fn rules(corpus: &str) -> (r: Vec<DetectionRule>)
    ensures
        r@.map_values(|x: DetectionRule| x@) == rules_of(corpus@),
{
    let v = chars_of(corpus);
    let paras = split_paragraphs(&v);
    let blank = two_char_vec('\n', '\n');
    let esc_r = two_char_vec('\\', 'r');
    let esc_n = two_char_vec('\\', 'n');
    let cr = one_char_vec('\r');
    let lf = one_char_vec('\n');
    let mut out: Vec<DetectionRule> = Vec::new();
    let mut i: usize = 0;
    proof {
        assert(paras@.map_values(|p: Vec<char>| p@).skip(0) =~= paragraphs(v@));
        assert(out@.map_values(|x: DetectionRule| x@) + rules_from(paragraphs(v@)) =~= rules_from(
            paragraphs(v@),
        ));
    }
    while i < paras.len()
        invariant
            i <= paras@.len(),
            blank@ == blank_sep(),
            esc_r@ == seq!['\\', 'r'],
            esc_n@ == seq!['\\', 'n'],
            cr@ == seq!['\r'],
            lf@ == seq!['\n'],
            paras@.map_values(|p: Vec<char>| p@) == paragraphs(v@),
            rules_of(corpus@) == out@.map_values(|x: DetectionRule| x@) + rules_from(
                paras@.map_values(|p: Vec<char>| p@).skip(i as int),
            ),
        decreases paras@.len() - i,
    {
        let ghost ps = paras@.map_values(|p: Vec<char>| p@).skip(i as int);
        proof {
            assert(ps[0] == paras@[i as int]@);
            assert(ps.skip(1) =~= paras@.map_values(|p: Vec<char>| p@).skip(i + 1));
        }
        let fields = split_all(&paras[i], &blank);
        proof {
            assert(fields@.map_values(|f: Vec<char>| f@) == split_pat(paras@[i as int]@, blank_sep()));
            assert(forall|k: int|
                0 <= k < fields@.len() ==> #[trigger] fields@[k]@ == split_pat(
                    paras@[i as int]@,
                    blank_sep(),
                )[k]);
        }
        if fields.len() >= 3 {
            let tag = string_from_chars(&fields[0]);
            let unescaped = replace_all(&replace_all(&fields[1], &esc_r, &cr), &esc_n, &lf);
            let template = string_from_chars(&unescaped);
            let needle = string_from_chars(&trim_vec(&fields[2]));
            let rule = DetectionRule { tag, template, needle };
            let ghost old_out = out@;
            out.push(rule);
            proof {
                assert(out@.map_values(|x: DetectionRule| x@) =~= old_out.map_values(
                    |x: DetectionRule| x@,
                ).push(rule@));
                assert(rule@ == rule_of_paragraph(ps[0])->Some_0);
                assert(rules_from(ps) == seq![rule_of_paragraph(ps[0])->Some_0] + rules_from(
                    ps.skip(1),
                ));
                assert(rules_of(corpus@) =~= out@.map_values(|x: DetectionRule| x@) + rules_from(
                    ps.skip(1),
                ));
            }
        } else {
            proof {
                assert(rules_from(ps) == rules_from(ps.skip(1)));
            }
        }
        i = i + 1;
    }
    proof {
        assert(paras@.map_values(|p: Vec<char>| p@).skip(paras@.len() as int) =~= Seq::<
            Seq<char>,
        >::empty());
        assert(rules_of(corpus@) =~= out@.map_values(|x: DetectionRule| x@));
    }
    out
}

/// Count of the well-formed paragraphs in a list.
pub open spec fn count_wf(ps: Seq<Seq<char>>) -> nat
    decreases ps.len(),
{
    if ps.len() == 0 {
        0
    } else {
        (if wf_paragraph(ps[0]) {
            1nat
        } else {
            0nat
        }) + count_wf(ps.skip(1))
    }
}

/// Each well-formed paragraph yields exactly one rule and each
/// malformed one yields none.
proof fn lemma_rules_from_count(ps: Seq<Seq<char>>)
    ensures
        rules_from(ps).len() == count_wf(ps),
    decreases ps.len(),
{
    if ps.len() > 0 {
        lemma_rules_from_count(ps.skip(1));
    }
}

/// Tolerance of the corpus reader: the rules are exactly one per
/// well-formed paragraph; a malformed paragraph only reduces
/// coverage, it never removes or reorders the rules of the others.
pub proof fn lemma_ruleset_tolerant(c: Seq<char>)
    ensures
        rules_of(c).len() == count_wf(paragraphs(c)),
        forall|i: int|
            0 <= i < paragraphs(c).len() && !wf_paragraph(#[trigger] paragraphs(c)[i])
                ==> rules_of(c) == rules_from(paragraphs(c).remove(i)),
{
    lemma_rules_from_count(paragraphs(c));
    assert forall|i: int|
        0 <= i < paragraphs(c).len() && !wf_paragraph(#[trigger] paragraphs(c)[i]) implies rules_of(
        c,
    ) == rules_from(paragraphs(c).remove(i)) by {
        lemma_rules_from_remove(paragraphs(c), i);
    }
}

/// Removing a malformed paragraph does not change the rules.
proof fn lemma_rules_from_remove(ps: Seq<Seq<char>>, i: int)
    requires
        0 <= i < ps.len(),
        !wf_paragraph(ps[i]),
    ensures
        rules_from(ps) == rules_from(ps.remove(i)),
    decreases ps.len(),
{
    if i == 0 {
        assert(rule_of_paragraph(ps[0]) is None);
        assert(ps.remove(0) =~= ps.skip(1));
    } else {
        lemma_rules_from_remove(ps.skip(1), i - 1);
        assert(ps.remove(i).skip(1) =~= ps.skip(1).remove(i - 1));
        assert(ps.remove(i)[0] == ps[0]);
        match rule_of_paragraph(ps[0]) {
            Some(r) => {
                assert(rules_from(ps) == seq![r] + rules_from(ps.skip(1)));
                assert(rules_from(ps.remove(i)) == seq![r] + rules_from(ps.remove(i).skip(1)));
            },
            None => {
            },
        }
    }
}

} // verus!

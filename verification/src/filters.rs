//! The `--where` grammar: what a filter may say about one record.
//!
//! A predicate reads a record's frontmatter and nothing else, no field is built
//! in, and what the grammar cannot express it refuses rather than guessing.
//! What emptied a result is named for the same reason: the alternative is a
//! caller bisecting their own filter.

use vstd::prelude::*;

use crate::fm::{Fm, FmValue, FmView, Scalar, ScalarView, fm_get, fm_lookup, fm_view};
use crate::lines::{lines_view, split_on, split_on_char};
use crate::order::{lex_lt, sorted_strict};
use crate::sections::strings_view;
use crate::text::{first_occurrence, lemma_trim_idempotent, split_once, str_of, string_of, trim};

verus! {

/// One thing a filter can test about one record.
#[derive(Debug)]
pub enum Term {
    Eq(String, String),
    Ne(String, String),
    Has(String),
    Lacks(String),
}

pub ghost enum TermView {
    Eq(Seq<char>, Seq<char>),
    Ne(Seq<char>, Seq<char>),
    Has(Seq<char>),
    Lacks(Seq<char>),
}

impl View for Term {
    type V = TermView;

    open spec fn view(&self) -> TermView {
        match self {
            Term::Eq(k, v) => TermView::Eq(k@, v@),
            Term::Ne(k, v) => TermView::Ne(k@, v@),
            Term::Has(k) => TermView::Has(k@),
            Term::Lacks(k) => TermView::Lacks(k@),
        }
    }
}

pub open spec fn terms_view(v: Seq<Term>) -> Seq<TermView> {
    v.map_values(|t: Term| t@)
}

/// One `--where`: alternatives, any of which satisfies it.
///
/// `=` is a comparison rather than an assignment, so it binds tighter than `|`
/// the way it does anywhere else: `status=live | status=draft` is two
/// comparisons joined by an or. `|` inside one argument is the or, and the
/// boundary between arguments is the and.
#[derive(Debug)]
pub struct Pred {
    /// As typed, so a filter that keeps nothing can be named back to its author.
    text: String,
    any: Vec<Term>,
}

pub ghost struct PredView {
    pub text: Seq<char>,
    pub any: Seq<TermView>,
}

impl View for Pred {
    type V = PredView;

    closed spec fn view(&self) -> PredView {
        PredView { text: self.text@, any: terms_view(self.any@) }
    }
}

pub open spec fn preds_view(v: Seq<Pred>) -> Seq<PredView> {
    v.map_values(|p: Pred| p@)
}

/// Why a `--where` was refused.
#[derive(Debug)]
pub enum WhereError {
    NamesNoKey { whole: String },
    NotAKey { whole: String, key: String, c: char },
}

pub ghost enum WhereErrorView {
    NamesNoKey { whole: Seq<char> },
    NotAKey { whole: Seq<char>, key: Seq<char>, c: char },
}

impl View for WhereError {
    type V = WhereErrorView;

    open spec fn view(&self) -> WhereErrorView {
        match self {
            WhereError::NamesNoKey { whole } => WhereErrorView::NamesNoKey { whole: whole@ },
            WhereError::NotAKey { whole, key, c } => WhereErrorView::NotAKey {
                whole: whole@,
                key: key@,
                c: *c,
            },
        }
    }
}

/// Characters an operator would use, and folio compares text only. A key
/// carrying one is a predicate somebody meant and folio cannot express. Only
/// the key is read this way: a value is literal text once `|` has split the
/// alternatives.
pub open spec fn not_a_key() -> Seq<char> {
    seq!['<', '>', '|', '!', '=', '~', '&']
}

pub open spec fn ne_op() -> Seq<char> {
    seq!['!', '=']
}

pub open spec fn eq_op() -> Seq<char> {
    seq!['=']
}

/// A piece of a `--where`, read as a term, with the key it names.
pub open spec fn term_and_key(raw: Seq<char>) -> (TermView, Seq<char>) {
    let r = trim(raw);
    match split_once(r, ne_op()) {
        Some((k, v)) => (TermView::Ne(trim(k), trim(v)), trim(k)),
        None => match split_once(r, eq_op()) {
            Some((k, v)) => (TermView::Eq(trim(k), trim(v)), trim(k)),
            None => if r.len() > 0 && r[0] == '!' {
                (TermView::Lacks(trim(r.drop_first())), trim(r.drop_first()))
            } else {
                (TermView::Has(r), r)
            },
        },
    }
}

/// The first character of `key` that an operator would use.
pub open spec fn first_bad(key: Seq<char>) -> Option<int> {
    if exists|i: int| 0 <= i < key.len() && not_a_key().contains(key[i]) {
        Some(
            choose|i: int|
                0 <= i < key.len() && not_a_key().contains(key[i]) && forall|j: int|
                    0 <= j < i ==> !not_a_key().contains(key[j]),
        )
    } else {
        None
    }
}

/// A piece of `--where whole` as a term, or why it is refused.
pub open spec fn parse_term_spec(raw: Seq<char>, whole: Seq<char>) -> Result<TermView, WhereErrorView> {
    let (term, key) = term_and_key(raw);
    if key.len() == 0 {
        Err(WhereErrorView::NamesNoKey { whole })
    } else {
        match first_bad(key) {
            Some(i) => Err(WhereErrorView::NotAKey { whole, key, c: key[i] }),
            None => Ok(term),
        }
    }
}

pub fn lit(s: &str) -> (r: String)
    ensures
        r@ == s@,
{
    str_of(s)
}

pub fn char_string(c: char) -> (r: String)
    ensures
        r@ == seq![c],
{
    let v = vec![c];
    let r = string_of(v.as_slice(), 0, 1);
    assert(v@.subrange(0, 1) =~= seq![c]);
    r
}

pub open spec fn grammar() -> Seq<char> {
    "`key`, `!key`, `key=value`, `key!=value`, joined by `|`"@
}

/// What a refusal says: the predicate as typed, why, and the whole grammar.
pub open spec fn message_spec(e: WhereErrorView) -> Seq<char> {
    let (whole, why) = match e {
        WhereErrorView::NamesNoKey { whole } => (whole, "names no key"@),
        WhereErrorView::NotAKey { whole, key, c } => (
            whole,
            "reads `"@ + key + "` as the key, and `"@ + seq![c] + "` in a key is not something you meant"@,
        ),
    };
    "--where "@ + whole + ": "@ + why + ". folio compares text, and the whole grammar is "@ + grammar()
}

impl WhereError {
    /// The refusal, in words.
    pub fn message(&self) -> (r: String)
        ensures
            r@ == message_spec(self@),
    {
        let mut r = lit("--where ");
        match self {
            WhereError::NamesNoKey { whole } => {
                r.append(whole.as_str());
                r.append(": ");
                r.append("names no key");
            },
            WhereError::NotAKey { whole, key, c } => {
                r.append(whole.as_str());
                r.append(": ");
                r.append("reads `");
                r.append(key.as_str());
                r.append("` as the key, and `");
                let cs = char_string(*c);
                r.append(cs.as_str());
                r.append("` in a key is not something you meant");
            },
        }
        r.append(". folio compares text, and the whole grammar is ");
        r.append("`key`, `!key`, `key=value`, `key!=value`, joined by `|`");
        r
    }
}

pub fn is_operator_char(c: char) -> (b: bool)
    ensures
        b == not_a_key().contains(c),
{
    let ghost s = not_a_key();
    assert(s[0] == '<' && s[1] == '>' && s[2] == '|' && s[3] == '!' && s[4] == '=' && s[5] == '~'
        && s[6] == '&');
    let b = c == '<' || c == '>' || c == '|' || c == '!' || c == '=' || c == '~' || c == '&';
    proof {
        if b {
            if c == '<' { assert(s[0] == c); }
            else if c == '>' { assert(s[1] == c); }
            else if c == '|' { assert(s[2] == c); }
            else if c == '!' { assert(s[3] == c); }
            else if c == '=' { assert(s[4] == c); }
            else if c == '~' { assert(s[5] == c); }
            else { assert(s[6] == c); }
        } else {
            assert forall|i: int| 0 <= i < s.len() implies s[i] != c by {}
        }
    }
    b
}

pub proof fn lemma_first_bad_is(key: Seq<char>, i: int)
    requires
        0 <= i < key.len(),
        not_a_key().contains(key[i]),
        forall|j: int| 0 <= j < i ==> !not_a_key().contains(key[j]),
    ensures
        first_bad(key) == Some(i),
{
    let c = choose|c: int|
        0 <= c < key.len() && not_a_key().contains(key[c]) && forall|j: int|
            0 <= j < c ==> !not_a_key().contains(key[j]);
    assert(0 <= c < key.len() && not_a_key().contains(key[c]));
    if c < i {
        assert(!not_a_key().contains(key[c]));
    }
    if c > i {
        assert(!not_a_key().contains(key[i]));
    }
}

/// Check the key `s[a..b]` of a term and build the result.
fn check_key(s: &Vec<char>, a: usize, b: usize, term: Term, whole: &str) -> (r: Result<Term, WhereError>)
    requires
        a <= b <= s@.len(),
    ensures
        match r {
            Ok(t) => t == term,
            Err(e) => e@ == (if a == b {
                WhereErrorView::NamesNoKey { whole: whole@ }
            } else {
                let key = s@.subrange(a as int, b as int);
                WhereErrorView::NotAKey { whole: whole@, key, c: key[first_bad(key)->0] }
            }),
        },
        (r is Ok) == (a < b && first_bad(s@.subrange(a as int, b as int)) is None),
{
    let ghost key = s@.subrange(a as int, b as int);
    if a == b {
        return Err(WhereError::NamesNoKey { whole: str_of(whole) });
    }
    let mut j = a;
    while j < b
        invariant
            a <= j <= b <= s@.len(),
            key == s@.subrange(a as int, b as int),
            forall|m: int| 0 <= m < j - a ==> !not_a_key().contains(key[m]),
        decreases b - j,
    {
        assert(key[j - a] == s@[j as int]);
        if is_operator_char(s[j]) {
            proof {
                lemma_first_bad_is(key, j - a);
            }
            return Err(
                WhereError::NotAKey {
                    whole: str_of(whole),
                    key: string_of(s.as_slice(), a, b),
                    c: s[j],
                },
            );
        }
        j = j + 1;
    }
    assert(first_bad(key) is None);
    Ok(term)
}

pub open spec fn term_result_view(r: Result<Term, WhereError>) -> Result<TermView, WhereErrorView> {
    match r {
        Ok(t) => Ok(t@),
        Err(e) => Err(e@),
    }
}

/// The term `s[a..b]` reads as, once trimmed, and where the key it names stands.
#[verifier::spinoff_prover]
#[verifier::rlimit(100)]
fn read_term(s: &Vec<char>, a0: usize, b0: usize) -> (r: (Term, usize, usize))
    requires
        a0 <= b0 <= s@.len(),
    ensures
        r.1 <= r.2 <= s@.len(),
        (r.0@, s@.subrange(r.1 as int, r.2 as int)) == term_and_key(s@.subrange(a0 as int, b0 as int)),
{
    let ghost raw = s@.subrange(a0 as int, b0 as int);
    let (a, b) = crate::text::trim_range(s, a0, b0);
    let ghost r = trim(raw);
    assert(r == s@.subrange(a as int, b as int));
    let ne = vec!['!', '='];
    let eq = vec!['='];
    assert(ne@ == ne_op());
    assert(eq@ == eq_op());
    match crate::text::find_in(s, a, b, &ne) {
        Some(p) => {
            let (ka, kb) = crate::text::trim_range(s, a, p);
            let (va, vb) = crate::text::trim_range(s, p + 2, b);
            proof {
                let i = p - a;
                assert(r.subrange(0, i) =~= s@.subrange(a as int, p as int));
                assert(r.subrange(i + 2, r.len() as int) =~= s@.subrange(p + 2, b as int));
            }
            (Term::Ne(string_of(s.as_slice(), ka, kb), string_of(s.as_slice(), va, vb)), ka, kb)
        },
        None => match crate::text::find_in(s, a, b, &eq) {
            Some(p) => {
                let (ka, kb) = crate::text::trim_range(s, a, p);
                let (va, vb) = crate::text::trim_range(s, p + 1, b);
                proof {
                    let i = p - a;
                    assert(r.subrange(0, i) =~= s@.subrange(a as int, p as int));
                    assert(r.subrange(i + 1, r.len() as int) =~= s@.subrange(p + 1, b as int));
                }
                (Term::Eq(string_of(s.as_slice(), ka, kb), string_of(s.as_slice(), va, vb)), ka, kb)
            },
            None => {
                if a < b && s[a] == '!' {
                    let (ka, kb) = crate::text::trim_range(s, a + 1, b);
                    assert(r.drop_first() =~= s@.subrange(a + 1, b as int));
                    (Term::Lacks(string_of(s.as_slice(), ka, kb)), ka, kb)
                } else {
                    (Term::Has(string_of(s.as_slice(), a, b)), a, b)
                }
            },
        },
    }
}

/// Read one piece of `--where whole` as a term, refusing a piece that names no
/// key or whose key carries an operator character.
pub fn parse_term(raw: &str, whole: &str) -> (r: Result<Term, WhereError>)
    ensures
        term_result_view(r) == parse_term_spec(raw@, whole@),
{
    let s = crate::text::chars_of(raw);
    parse_term_chars(&s, whole)
}

fn parse_term_chars(s: &Vec<char>, whole: &str) -> (r: Result<Term, WhereError>)
    ensures
        term_result_view(r) == parse_term_spec(s@, whole@),
{
    let n = s.len();
    assert(s@.subrange(0, n as int) =~= s@);
    let (term, ka, kb) = read_term(s, 0, n);
    check_key(s, ka, kb, term, whole)
}

/// The pieces of one `--where`, each read as a term, or the first refusal.
pub open spec fn parse_terms_spec(pieces: Seq<Seq<char>>, whole: Seq<char>) -> Result<Seq<TermView>, WhereErrorView>
    decreases pieces.len(),
{
    if pieces.len() == 0 {
        Ok(Seq::empty())
    } else {
        match parse_terms_spec(pieces.drop_last(), whole) {
            Err(e) => Err(e),
            Ok(ts) => match parse_term_spec(pieces.last(), whole) {
                Err(e) => Err(e),
                Ok(t) => Ok(ts.push(t)),
            },
        }
    }
}

/// The hint for a bare key beside `|`: a presence test, which is what the
/// precedence says and rarely what someone typing it wants.
pub open spec fn hint_spec(whole: Seq<char>, k: Seq<char>) -> Seq<char> {
    "--where "@ + whole + ": `"@ + k + "` beside `|` is a presence test for the key `"@ + k
        + "`. A value needs its key, as in `<key>="@ + k + "`"@
}

/// One hint per presence test among the alternatives, in order.
pub open spec fn hints_spec(whole: Seq<char>, ts: Seq<TermView>) -> Seq<Seq<char>>
    decreases ts.len(),
{
    if ts.len() == 0 {
        Seq::empty()
    } else {
        hints_spec(whole, ts.drop_last()) + match ts.last() {
            TermView::Has(k) => seq![hint_spec(whole, k)],
            _ => Seq::empty(),
        }
    }
}

/// One `--where` read as alternatives, with the hints it earns.
pub open spec fn parse_one_spec(whole: Seq<char>) -> Result<(PredView, Seq<Seq<char>>), WhereErrorView> {
    match parse_terms_spec(split_on(whole, '|'), whole) {
        Err(e) => Err(e),
        Ok(ts) => Ok(
            (
                PredView { text: whole, any: ts },
                if ts.len() > 1 {
                    hints_spec(whole, ts)
                } else {
                    Seq::empty()
                },
            ),
        ),
    }
}

/// Every `--where` read in order, with all their hints, or the first refusal.
pub open spec fn parse_preds_spec(raw: Seq<Seq<char>>) -> Result<(Seq<PredView>, Seq<Seq<char>>), WhereErrorView>
    decreases raw.len(),
{
    if raw.len() == 0 {
        Ok((Seq::empty(), Seq::empty()))
    } else {
        match parse_preds_spec(raw.drop_last()) {
            Err(e) => Err(e),
            Ok((ps, hs)) => match parse_one_spec(raw.last()) {
                Err(e) => Err(e),
                Ok((p, h)) => Ok((ps.push(p), hs + h)),
            },
        }
    }
}

pub fn hint(whole: &String, k: &String) -> (r: String)
    ensures
        r@ == hint_spec(whole@, k@),
{
    let mut r = lit("--where ");
    r.append(whole.as_str());
    r.append(": `");
    r.append(k.as_str());
    r.append("` beside `|` is a presence test for the key `");
    r.append(k.as_str());
    r.append("`. A value needs its key, as in `<key>=");
    r.append(k.as_str());
    r.append("`");
    r
}

/// One `--where` read as alternatives, with the hints it earns.
fn parse_one(whole: &String) -> (r: Result<(Pred, Vec<String>), WhereError>)
    ensures
        match r {
            Ok((p, h)) => parse_one_spec(whole@) == Ok::<(PredView, Seq<Seq<char>>), WhereErrorView>((p@, strings_view(h@))),
            Err(e) => parse_one_spec(whole@) == Err::<(PredView, Seq<Seq<char>>), WhereErrorView>(e@),
        },
{
    let chars = crate::text::chars_of(whole.as_str());
    let pieces = split_on_char(&chars, '|');
    let ghost pv = lines_view(pieces@);
    let mut any: Vec<Term> = Vec::new();
    let mut k: usize = 0;
    assert(pv.subrange(0, 0) =~= Seq::<Seq<char>>::empty());
    assert(terms_view(any@) =~= Seq::<TermView>::empty());
    while k < pieces.len()
        invariant
            k <= pieces@.len(),
            pv == lines_view(pieces@),
            pv == split_on(whole@, '|'),
            parse_terms_spec(pv.subrange(0, k as int), whole@) == Ok::<Seq<TermView>, WhereErrorView>(terms_view(any@)),
        decreases pieces@.len() - k,
    {
        let ghost sub = pv.subrange(0, k + 1);
        assert(sub.drop_last() =~= pv.subrange(0, k as int));
        assert(sub.last() == pieces@[k as int]@);
        match parse_term_chars(&pieces[k], whole.as_str()) {
            Ok(t) => {
                let ghost tv = t@;
                let ghost before = terms_view(any@);
                any.push(t);
                assert(terms_view(any@) =~= before.push(tv));
                assert(parse_terms_spec(sub, whole@) == Ok::<Seq<TermView>, WhereErrorView>(before.push(tv)));
            },
            Err(e) => {
                proof {
                    lemma_terms_err_persists(pv, whole@, k + 1);
                    assert(pv.subrange(0, pv.len() as int) =~= pv);
                }
                return Err(e);
            },
        }
        k = k + 1;
    }
    assert(pv.subrange(0, pv.len() as int) =~= pv);
    let mut hints: Vec<String> = Vec::new();
    if any.len() > 1 {
        let ghost tv = terms_view(any@);
        let mut j: usize = 0;
        while j < any.len()
            invariant
                j <= any@.len(),
                tv == terms_view(any@),
                strings_view(hints@) == hints_spec(whole@, tv.subrange(0, j as int)),
            decreases any@.len() - j,
        {
            let ghost sub = tv.subrange(0, j + 1);
            assert(sub.drop_last() =~= tv.subrange(0, j as int));
            assert(sub.last() == any@[j as int]@);
            match &any[j] {
                Term::Has(key) => {
                    let h = hint(whole, key);
                    let ghost hv = h@;
                    hints.push(h);
                    assert(strings_view(hints@) =~= strings_view(hints@.drop_last()).push(hv));
                },
                _ => {
                    assert(hints_spec(whole@, sub) =~= hints_spec(whole@, sub.drop_last()));
                },
            }
            j = j + 1;
        }
        assert(tv.subrange(0, tv.len() as int) =~= tv);
    } else {
        assert(strings_view(hints@) =~= Seq::<Seq<char>>::empty());
    }
    let p = Pred { text: whole.clone(), any };
    Ok((p, hints))
}

pub proof fn lemma_terms_err_persists(pv: Seq<Seq<char>>, whole: Seq<char>, k: int)
    requires
        0 <= k <= pv.len(),
        parse_terms_spec(pv.subrange(0, k), whole) is Err,
    ensures
        parse_terms_spec(pv, whole) == parse_terms_spec(pv.subrange(0, k), whole),
    decreases pv.len() - k,
{
    if k < pv.len() {
        let sub = pv.subrange(0, k + 1);
        assert(sub.drop_last() =~= pv.subrange(0, k));
        lemma_terms_err_persists(pv, whole, k + 1);
    } else {
        assert(pv.subrange(0, k) =~= pv);
    }
}

pub proof fn lemma_preds_err_persists(raw: Seq<Seq<char>>, k: int)
    requires
        0 <= k <= raw.len(),
        parse_preds_spec(raw.subrange(0, k)) is Err,
    ensures
        parse_preds_spec(raw) == parse_preds_spec(raw.subrange(0, k)),
    decreases raw.len() - k,
{
    if k < raw.len() {
        let sub = raw.subrange(0, k + 1);
        assert(sub.drop_last() =~= raw.subrange(0, k));
        lemma_preds_err_persists(raw, k + 1);
    } else {
        assert(raw.subrange(0, k) =~= raw);
    }
}

pub open spec fn preds_result_view(r: Result<(Vec<Pred>, Vec<String>), WhereError>) -> Result<(Seq<PredView>, Seq<Seq<char>>), WhereErrorView> {
    match r {
        Ok((p, h)) => Ok((preds_view(p@), strings_view(h@))),
        Err(e) => Err(e@),
    }
}

/// Parse `--where`, refusing what folio cannot express, and hint at the one
/// reading of it that is conventional and still probably not what was meant.
///
/// A predicate that is neither understood nor refused is worse than either: it
/// silently becomes a key nobody would name.
pub fn parse_preds(raw: &Vec<String>) -> (r: Result<(Vec<Pred>, Vec<String>), WhereError>)
    ensures
        preds_result_view(r) == parse_preds_spec(strings_view(raw@)),
{
    let ghost rv = strings_view(raw@);
    let mut preds: Vec<Pred> = Vec::new();
    let mut hints: Vec<String> = Vec::new();
    let mut k: usize = 0;
    assert(rv.subrange(0, 0) =~= Seq::<Seq<char>>::empty());
    assert(preds_view(preds@) =~= Seq::<PredView>::empty());
    assert(strings_view(hints@) =~= Seq::<Seq<char>>::empty());
    while k < raw.len()
        invariant
            k <= raw@.len(),
            rv == strings_view(raw@),
            parse_preds_spec(rv.subrange(0, k as int)) == Ok::<(Seq<PredView>, Seq<Seq<char>>), WhereErrorView>((preds_view(preds@), strings_view(hints@))),
        decreases raw@.len() - k,
    {
        let ghost sub = rv.subrange(0, k + 1);
        assert(sub.drop_last() =~= rv.subrange(0, k as int));
        assert(sub.last() == raw@[k as int]@);
        match parse_one(&raw[k]) {
            Ok((p, h)) => {
                let ghost pv = p@;
                let ghost before_h = strings_view(hints@);
                let ghost before_p = preds_view(preds@);
                preds.push(p);
                assert(preds_view(preds@) =~= before_p.push(pv));
                let mut j: usize = 0;
                while j < h.len()
                    invariant
                        j <= h@.len(),
                        strings_view(hints@) == before_h + strings_view(h@).subrange(0, j as int),
                    decreases h@.len() - j,
                {
                    let ghost prev = strings_view(hints@);
                    let x = h[j].clone();
                    hints.push(x);
                    assert(strings_view(hints@) =~= prev.push(h@[j as int]@));
                    j = j + 1;
                    assert(strings_view(hints@) =~= before_h + strings_view(h@).subrange(0, j as int));
                }
                assert(strings_view(h@).subrange(0, h@.len() as int) =~= strings_view(h@));
                assert(parse_preds_spec(sub) == Ok::<(Seq<PredView>, Seq<Seq<char>>), WhereErrorView>((before_p.push(pv), before_h + strings_view(h@))));
            },
            Err(e) => {
                proof {
                    lemma_preds_err_persists(rv, k + 1);
                    assert(rv.subrange(0, rv.len() as int) =~= rv);
                }
                return Err(e);
            },
        }
        k = k + 1;
    }
    assert(rv.subrange(0, rv.len() as int) =~= rv);
    Ok((preds, hints))
}

/// A scalar as the text a filter compares against. A YAML `0001` that arrived
/// as a number still has to match the string somebody typed on the command
/// line, so both sides go through this.
pub open spec fn scalar_text_spec(v: ScalarView) -> Seq<char> {
    match v {
        ScalarView::Str(s) => s,
        ScalarView::Number(n) => n,
        ScalarView::Bool(b) => if b {
            "true"@
        } else {
            "false"@
        },
        ScalarView::Null => "null"@,
    }
}

/// A value holds `want` when it is that text, or a list with an element that is.
pub open spec fn holds_spec(got: FmView, want: Seq<char>) -> bool {
    match got {
        FmView::List(items) => exists|i: int|
            0 <= i < items.len() && #[trigger] scalar_text_spec(items[i]) == want,
        FmView::Scalar(s) => scalar_text_spec(s) == want,
    }
}

/// What one term says of one record's frontmatter. `key!=value` also passes
/// when the key is absent, so a filter never drops what nobody annotated.
pub open spec fn satisfies_spec(fm: crate::fm::FmSpec, t: TermView) -> bool {
    match t {
        TermView::Has(k) => fm_get(fm, k) is Some,
        TermView::Lacks(k) => fm_get(fm, k) is None,
        TermView::Eq(k, v) => fm_get(fm, k) matches Some(got) && holds_spec(got, v),
        TermView::Ne(k, v) => !(fm_get(fm, k) matches Some(got) && holds_spec(got, v)),
    }
}

/// Some alternative of `p` holds of the record.
pub open spec fn pred_holds(fm: crate::fm::FmSpec, p: PredView) -> bool {
    exists|i: int| 0 <= i < p.any.len() && satisfies_spec(fm, p.any[i])
}

/// Every `--where` holds of the record.
pub open spec fn keeps_spec(fm: crate::fm::FmSpec, preds: Seq<PredView>) -> bool {
    forall|j: int| 0 <= j < preds.len() ==> pred_holds(fm, preds[j])
}

pub open spec fn rows_fm(rows: Seq<(usize, Fm)>) -> Seq<crate::fm::FmSpec> {
    rows.map_values(|r: (usize, Fm)| fm_view(r.1@))
}

/// The text of each `--where` that holds of no row at all, in order.
pub open spec fn blames_spec(rows: Seq<crate::fm::FmSpec>, preds: Seq<PredView>) -> Seq<Seq<char>>
    decreases preds.len(),
{
    if preds.len() == 0 {
        Seq::empty()
    } else {
        blames_spec(rows, preds.drop_last()) + if exists|r: int|
            0 <= r < rows.len() && pred_holds(rows[r], preds.last()) {
            Seq::empty()
        } else {
            seq![preds.last().text]
        }
    }
}

pub proof fn lemma_holds_witness(av: Seq<ScalarView>, w: Seq<char>, i: int)
    requires
        0 <= i < av.len(),
        scalar_text_spec(av[i]) == w,
    ensures
        holds_spec(FmView::List(av), w),
{
    let g = FmView::List(av);
    assert(g is List);
    assert(g->List_0 == av);
    assert(exists|j: int| 0 <= j < av.len() && #[trigger] scalar_text_spec(av[j]) == w);
}

pub fn scalar_text(v: &Scalar) -> (r: String)
    ensures
        r@ == scalar_text_spec(v@),
{
    match v {
        Scalar::Str(s) => s.clone(),
        Scalar::Number(n) => n.clone(),
        Scalar::Bool(b) => if *b {
            lit("true")
        } else {
            lit("false")
        },
        Scalar::Null => lit("null"),
    }
}

pub fn scalar_eq(v: &Scalar, want: &String) -> (b: bool)
    ensures
        b == (scalar_text_spec(v@) == want@),
{
    scalar_text(v) == *want
}

pub fn holds(got: &FmValue, want: &String) -> (b: bool)
    ensures
        b == holds_spec(got@, want@),
{
    match got {
        FmValue::List(a) => {
            let ghost av = crate::fm::scalars_view(a@);
            let mut i: usize = 0;
            while i < a.len()
                invariant
                    i <= a@.len(),
                    av == crate::fm::scalars_view(a@),
                    got@ == FmView::List(av),
                    forall|j: int| 0 <= j < i ==> scalar_text_spec(av[j]) != want@,
                decreases a@.len() - i,
            {
                assert(av[i as int] == a@[i as int]@);
                if scalar_eq(&a[i], want) {
                    proof {
                        lemma_holds_witness(av, want@, i as int);
                    }
                    return true;
                }
                i = i + 1;
            }
            false
        },
        FmValue::Scalar(s) => scalar_eq(s, want),
    }
}

pub fn satisfies(fm: &Fm, term: &Term) -> (b: bool)
    ensures
        b == satisfies_spec(fm_view(fm@), term@),
{
    match term {
        Term::Has(k) => fm_lookup(fm, k).is_some(),
        Term::Lacks(k) => fm_lookup(fm, k).is_none(),
        Term::Eq(k, v) => match fm_lookup(fm, k) {
            Some(got) => holds(got, v),
            None => false,
        },
        Term::Ne(k, v) => match fm_lookup(fm, k) {
            Some(got) => !holds(got, v),
            None => true,
        },
    }
}

fn pred_kept(fm: &Fm, p: &Pred) -> (b: bool)
    ensures
        b == pred_holds(fm_view(fm@), p@),
{
    let ghost tv = terms_view(p.any@);
    let mut i: usize = 0;
    while i < p.any.len()
        invariant
            i <= p.any@.len(),
            tv == terms_view(p.any@),
            tv == p@.any,
            forall|j: int| 0 <= j < i ==> !satisfies_spec(fm_view(fm@), tv[j]),
        decreases p.any@.len() - i,
    {
        assert(tv[i as int] == p.any@[i as int]@);
        if satisfies(fm, &p.any[i]) {
            return true;
        }
        i = i + 1;
    }
    false
}

/// Whether every `--where` holds of a record with this frontmatter.
pub fn keeps(fm: &Fm, preds: &Vec<Pred>) -> (b: bool)
    ensures
        b == keeps_spec(fm_view(fm@), preds_view(preds@)),
{
    let ghost pv = preds_view(preds@);
    let mut j: usize = 0;
    while j < preds.len()
        invariant
            j <= preds@.len(),
            pv == preds_view(preds@),
            forall|m: int| 0 <= m < j ==> pred_holds(fm_view(fm@), pv[m]),
        decreases preds@.len() - j,
    {
        assert(pv[j as int] == preds@[j as int]@);
        if !pred_kept(fm, &preds[j]) {
            return false;
        }
        j = j + 1;
    }
    true
}

/// Which `--where` kept nothing at all, for a filter that emptied the result.
///
/// Each predicate is applied alone, so the one that emptied the result is
/// named, including the case where a whole expression was read as one value.
pub fn blames(rows: &Vec<(usize, Fm)>, preds: &Vec<Pred>) -> (out: Vec<String>)
    ensures
        strings_view(out@) == blames_spec(rows_fm(rows@), preds_view(preds@)),
{
    let ghost pv = preds_view(preds@);
    let ghost rv = rows_fm(rows@);
    let mut out: Vec<String> = Vec::new();
    let mut j: usize = 0;
    assert(pv.subrange(0, 0) =~= Seq::<PredView>::empty());
    assert(strings_view(out@) =~= Seq::<Seq<char>>::empty());
    while j < preds.len()
        invariant
            j <= preds@.len(),
            pv == preds_view(preds@),
            rv == rows_fm(rows@),
            strings_view(out@) == blames_spec(rv, pv.subrange(0, j as int)),
        decreases preds@.len() - j,
    {
        let ghost sub = pv.subrange(0, j + 1);
        assert(sub.drop_last() =~= pv.subrange(0, j as int));
        assert(sub.last() == preds@[j as int]@);
        let mut any = false;
        let mut r: usize = 0;
        while r < rows.len() && !any
            invariant
                r <= rows@.len(),
                rv == rows_fm(rows@),
                any ==> exists|m: int| 0 <= m < rv.len() && pred_holds(rv[m], preds@[j as int]@),
                !any ==> forall|m: int| 0 <= m < r ==> !pred_holds(rv[m], preds@[j as int]@),
                j < preds@.len(),
            decreases rows@.len() - r,
        {
            assert(rv[r as int] == fm_view(rows@[r as int].1@));
            if pred_kept(&rows[r].1, &preds[j]) {
                any = true;
            }
            r = r + 1;
        }
        let ghost before = strings_view(out@);
        if !any {
            let t = preds[j].text.clone();
            proof {
                assert(t@ == preds@[j as int]@.text);
            }
            out.push(t);
            assert(strings_view(out@) =~= before.push(preds@[j as int]@.text));
        } else {
            assert(blames_spec(rv, sub) =~= before);
        }
        j = j + 1;
    }
    assert(pv.subrange(0, pv.len() as int) =~= pv);
    out
}

/// The texts a value contributes as pointers: a list each of its elements,
/// a scalar itself.
pub open spec fn texts_of(v: FmView) -> Set<Seq<char>> {
    match v {
        FmView::List(a) => Set::new(|t: Seq<char>| exists|i: int| 0 <= i < a.len() && scalar_text_spec(a[i]) == t),
        FmView::Scalar(s) => set![scalar_text_spec(s)],
    }
}

/// Row `r` carries `t` under key `k`.
pub open spec fn carries(rows: Seq<crate::fm::FmSpec>, keys: Seq<Seq<char>>, t: Seq<char>, r: int, k: int) -> bool {
    0 <= r < rows.len() && 0 <= k < keys.len() && (fm_get(rows[r], keys[k]) matches Some(v)
        && texts_of(v).contains(t))
}

/// Every non-empty value any row carries under one of `keys`.
pub open spec fn pointed_set(rows: Seq<crate::fm::FmSpec>, keys: Seq<Seq<char>>) -> Set<Seq<char>> {
    Set::new(
        |t: Seq<char>| t.len() > 0 && exists|r: int, k: int| #[trigger] carries(rows, keys, t, r, k),
    )
}

/// Every value any section carries under one of `keys`, flattened out of lists,
/// in sorted order, each once, the empty text left out. This is the right side
/// of the anti-join, built from every row in the index rather than from the
/// rows a filter left.
pub fn pointed_at(rows: &Vec<(usize, Fm)>, keys: &Vec<String>) -> (out: Vec<String>)
    ensures
        sorted_strict(strings_view(out@)),
        strings_view(out@).to_set() == pointed_set(rows_fm(rows@), strings_view(keys@)),
{
    let ghost rv = rows_fm(rows@);
    let ghost kv = strings_view(keys@);
    let mut out: Vec<String> = Vec::new();
    assert(strings_view(out@) =~= Seq::<Seq<char>>::empty());
    let mut r: usize = 0;
    while r < rows.len()
        invariant
            r <= rows@.len(),
            rv == rows_fm(rows@),
            kv == strings_view(keys@),
            sorted_strict(strings_view(out@)),
            strings_view(out@).to_set() == Set::new(|t: Seq<char>| t.len() > 0 && exists|a: int, k: int| 0 <= a < r && #[trigger] carries(rv, kv, t, a, k)),
        decreases rows@.len() - r,
    {
        let mut k: usize = 0;
        while k < keys.len()
            invariant
                r < rows@.len(),
                k <= keys@.len(),
                rv == rows_fm(rows@),
                kv == strings_view(keys@),
                sorted_strict(strings_view(out@)),
                strings_view(out@).to_set() == Set::new(|t: Seq<char>| t.len() > 0 && (exists|a: int, m: int| 0 <= a < r && #[trigger] carries(rv, kv, t, a, m)
                    || exists|m: int| 0 <= m < k && #[trigger] carries(rv, kv, t, r as int, m))),
            decreases keys@.len() - k,
        {
            let ghost before = strings_view(out@).to_set();
            assert(rv[r as int] == fm_view(rows@[r as int].1@));
            assert(kv[k as int] == keys@[k as int]@);
            match fm_lookup(&rows[r].1, &keys[k]) {
                Some(FmValue::List(a)) => {
                    let mut i: usize = 0;
                    let ghost av = crate::fm::scalars_view(a@);
                    while i < a.len()
                        invariant
                            r < rows@.len(),
                            k < keys@.len(),
                            i <= a@.len(),
                            av == crate::fm::scalars_view(a@),
                            fm_get(rv[r as int], kv[k as int]) == Some(FmView::List(av)),
                            sorted_strict(strings_view(out@)),
                            strings_view(out@).to_set() == before.union(Set::new(|t: Seq<char>| t.len() > 0 && exists|j: int| 0 <= j < i && scalar_text_spec(av[j]) == t)),
                        decreases a@.len() - i,
                    {
                        let t = scalar_text(&a[i]);
                        assert(av[i as int] == a@[i as int]@);
                        let ghost tv = t@;
                        let ghost prev = strings_view(out@).to_set();
                        if !t.as_str().is_empty() {
                            crate::order::insert_sorted(&mut out, t);
                        }
                        i = i + 1;
                        proof {
                            if tv.len() > 0 {
                                assert(strings_view(out@).to_set() == prev.insert(tv));
                            }
                            assert(strings_view(out@).to_set() =~= before.union(Set::new(|t: Seq<char>| t.len() > 0 && exists|j: int| 0 <= j < i && scalar_text_spec(av[j]) == t)));
                        }
                    }
                    proof {
                        assert(strings_view(out@).to_set() =~= Set::new(|t: Seq<char>| t.len() > 0 && (exists|a: int, m: int| 0 <= a < r && #[trigger] carries(rv, kv, t, a, m)
                            || exists|m: int| 0 <= m < k + 1 && #[trigger] carries(rv, kv, t, r as int, m)))) by {
                            assert forall|t: Seq<char>| #[trigger] strings_view(out@).to_set().contains(t) implies (t.len() > 0 && (exists|a: int, m: int| 0 <= a < r && #[trigger] carries(rv, kv, t, a, m)
                                || exists|m: int| 0 <= m < k + 1 && #[trigger] carries(rv, kv, t, r as int, m))) by {
                                if !before.contains(t) {
                                    assert(carries(rv, kv, t, r as int, k as int));
                                }
                            }
                            assert forall|t: Seq<char>| (t.len() > 0 && (exists|a: int, m: int| 0 <= a < r && #[trigger] carries(rv, kv, t, a, m)
                                || exists|m: int| 0 <= m < k + 1 && #[trigger] carries(rv, kv, t, r as int, m))) implies #[trigger] strings_view(out@).to_set().contains(t) by {
                                if !(exists|a: int, m: int| 0 <= a < r && #[trigger] carries(rv, kv, t, a, m)) {
                                    let m = choose|m: int| 0 <= m < k + 1 && #[trigger] carries(rv, kv, t, r as int, m);
                                    if m == k {
                                        assert(texts_of(FmView::List(av)).contains(t));
                                    }
                                }
                            }
                        }
                    }
                },
                Some(FmValue::Scalar(v)) => {
                    let t = scalar_text(v);
                    let ghost tv = t@;
                    if !t.as_str().is_empty() {
                        crate::order::insert_sorted(&mut out, t);
                    }
                    proof {
                        assert(strings_view(out@).to_set() =~= Set::new(|t: Seq<char>| t.len() > 0 && (exists|a: int, m: int| 0 <= a < r && #[trigger] carries(rv, kv, t, a, m)
                            || exists|m: int| 0 <= m < k + 1 && #[trigger] carries(rv, kv, t, r as int, m)))) by {
                            assert forall|t: Seq<char>| #[trigger] strings_view(out@).to_set().contains(t) implies (t.len() > 0 && (exists|a: int, m: int| 0 <= a < r && #[trigger] carries(rv, kv, t, a, m)
                                || exists|m: int| 0 <= m < k + 1 && #[trigger] carries(rv, kv, t, r as int, m))) by {
                                if !before.contains(t) {
                                    assert(t == tv);
                                    assert(carries(rv, kv, t, r as int, k as int));
                                }
                            }
                            assert forall|t: Seq<char>| (t.len() > 0 && (exists|a: int, m: int| 0 <= a < r && #[trigger] carries(rv, kv, t, a, m)
                                || exists|m: int| 0 <= m < k + 1 && #[trigger] carries(rv, kv, t, r as int, m))) implies #[trigger] strings_view(out@).to_set().contains(t) by {
                                if !(exists|a: int, m: int| 0 <= a < r && #[trigger] carries(rv, kv, t, a, m)) {
                                    let m = choose|m: int| 0 <= m < k + 1 && #[trigger] carries(rv, kv, t, r as int, m);
                                    if m == k {
                                        assert(t == tv);
                                    }
                                }
                            }
                        }
                    }
                },
                None => {
                    proof {
                        assert(strings_view(out@).to_set() =~= Set::new(|t: Seq<char>| t.len() > 0 && (exists|a: int, m: int| 0 <= a < r && #[trigger] carries(rv, kv, t, a, m)
                            || exists|m: int| 0 <= m < k + 1 && #[trigger] carries(rv, kv, t, r as int, m)))) by {
                            assert forall|t: Seq<char>| (t.len() > 0 && (exists|a: int, m: int| 0 <= a < r && #[trigger] carries(rv, kv, t, a, m)
                                || exists|m: int| 0 <= m < k + 1 && #[trigger] carries(rv, kv, t, r as int, m))) implies #[trigger] strings_view(out@).to_set().contains(t) by {
                                if !(exists|a: int, m: int| 0 <= a < r && #[trigger] carries(rv, kv, t, a, m)) {
                                    let m = choose|m: int| 0 <= m < k + 1 && #[trigger] carries(rv, kv, t, r as int, m);
                                    assert(m != k);
                                }
                            }
                        }
                    }
                },
            }
            k = k + 1;
        }
        proof {
            assert(strings_view(out@).to_set() =~= Set::new(|t: Seq<char>| t.len() > 0 && exists|a: int, m: int| 0 <= a < r + 1 && #[trigger] carries(rv, kv, t, a, m))) by {
                assert forall|t: Seq<char>| (t.len() > 0 && exists|a: int, m: int| 0 <= a < r + 1 && #[trigger] carries(rv, kv, t, a, m)) implies #[trigger] strings_view(out@).to_set().contains(t) by {
                    let (a, m) = choose|a: int, m: int| 0 <= a < r + 1 && #[trigger] carries(rv, kv, t, a, m);
                    if a == r {
                        assert(0 <= m < keys@.len());
                    }
                }
            }
        }
        r = r + 1;
    }
    proof {
        assert(strings_view(out@).to_set() =~= pointed_set(rv, kv)) by {
            assert forall|t: Seq<char>| #[trigger] pointed_set(rv, kv).contains(t) implies strings_view(out@).to_set().contains(t) by {
                let (a, m) = choose|a: int, m: int| #[trigger] carries(rv, kv, t, a, m);
            }
        }
    }
    out
}

/// What a filter says of a record that does not carry a key: `key!=value` and
/// `!key` pass, `key=value` and `key` do not; and for any record, `!=` is
/// exactly the negation of `=` and `!key` exactly the negation of `key`.
pub proof fn lemma_negation_and_absence(fm: crate::fm::FmSpec, k: Seq<char>, v: Seq<char>)
    ensures
        satisfies_spec(fm, TermView::Ne(k, v)) <==> !satisfies_spec(fm, TermView::Eq(k, v)),
        satisfies_spec(fm, TermView::Lacks(k)) <==> !satisfies_spec(fm, TermView::Has(k)),
        fm_get(fm, k) is None ==> satisfies_spec(fm, TermView::Ne(k, v)) && satisfies_spec(
            fm,
            TermView::Lacks(k),
        ) && !satisfies_spec(fm, TermView::Eq(k, v)) && !satisfies_spec(fm, TermView::Has(k)),
{
}

/// A YAML boolean compares as its JSON spelling: a key holding `true`
/// satisfies `key=true` and not `key=false`, and one holding `false` the
/// other way round.
pub proof fn lemma_booleans_compare_as_spelled(fm: crate::fm::FmSpec, k: Seq<char>, b: bool)
    requires
        fm_get(fm, k) == Some(FmView::Scalar(ScalarView::Bool(b))),
    ensures
        satisfies_spec(fm, TermView::Eq(k, "true"@)) <==> b,
        satisfies_spec(fm, TermView::Eq(k, "false"@)) <==> !b,
        satisfies_spec(fm, TermView::Ne(k, "true"@)) <==> !b,
        satisfies_spec(fm, TermView::Ne(k, "false"@)) <==> b,
{
    reveal_strlit("true");
    reveal_strlit("false");
    assert("true"@.len() != "false"@.len());
}

/// A comparison's key and value carry no surrounding whitespace: spaces
/// around `=` or `!=`, or at either end of the piece, belong to neither
/// side, so `k != v` reads as the same term as `k!=v`.
pub proof fn lemma_comparisons_are_trimmed(raw: Seq<char>, whole: Seq<char>)
    ensures
        parse_term_spec(raw, whole) matches Ok(TermView::Ne(k, v)) ==> trim(k) == k && trim(v) == v
            && k.len() > 0,
        parse_term_spec(raw, whole) matches Ok(TermView::Eq(k, v)) ==> trim(k) == k && trim(v) == v
            && k.len() > 0,
{
    let r = trim(raw);
    match split_once(r, ne_op()) {
        Some((k, v)) => {
            lemma_trim_idempotent(k);
            lemma_trim_idempotent(v);
        },
        None => match split_once(r, eq_op()) {
            Some((k, v)) => {
                lemma_trim_idempotent(k);
                lemma_trim_idempotent(v);
            },
            None => {},
        },
    }
}

/// The key a term names.
pub open spec fn term_key(t: TermView) -> Seq<char> {
    match t {
        TermView::Eq(k, _) => k,
        TermView::Ne(k, _) => k,
        TermView::Has(k) => k,
        TermView::Lacks(k) => k,
    }
}

/// Where a key holds a character an operator would use, `first_bad` finds one.
pub proof fn lemma_first_bad_found(key: Seq<char>, w: int)
    requires
        0 <= w < key.len(),
        not_a_key().contains(key[w]),
    ensures
        first_bad(key) matches Some(i) && 0 <= i < key.len() && not_a_key().contains(key[i]),
    decreases w,
{
    if exists|j: int| 0 <= j < w && not_a_key().contains(key[j]) {
        let j = choose|j: int| 0 <= j < w && not_a_key().contains(key[j]);
        lemma_first_bad_found(key, j);
    } else {
        lemma_first_bad_is(key, w);
    }
}

/// What the grammar cannot express is refused, never guessed at: a term is
/// accepted only with a key that is not empty and holds no character an
/// operator would use, and a refusal of a key names a character of that key
/// that an operator would use.
pub proof fn lemma_accepted_keys_are_plain(raw: Seq<char>, whole: Seq<char>)
    ensures
        parse_term_spec(raw, whole) matches Ok(t) ==> term_key(t).len() > 0 && forall|i: int|
            0 <= i < term_key(t).len() ==> !not_a_key().contains(#[trigger] term_key(t)[i]),
        parse_term_spec(raw, whole) matches Err(WhereErrorView::NotAKey { key, c, .. })
            ==> not_a_key().contains(c) && key.contains(c),
{
    let (term, key) = term_and_key(raw);
    assert(term_key(term) == key);
    if key.len() > 0 {
        match first_bad(key) {
            Some(_) => {
                let w = choose|j: int| 0 <= j < key.len() && not_a_key().contains(key[j]);
                lemma_first_bad_found(key, w);
            },
            None => {
                assert forall|i: int| 0 <= i < key.len() implies !not_a_key().contains(#[trigger] key[i]) by {
                    if not_a_key().contains(key[i]) {
                        assert(exists|j: int| 0 <= j < key.len() && not_a_key().contains(key[j]));
                    }
                }
            },
        }
    }
}

/// The pieces of one `--where` read as terms one by one: accepted exactly
/// when every piece is, and then one term per piece, in order.
pub proof fn lemma_terms_are_pieces(pieces: Seq<Seq<char>>, whole: Seq<char>)
    ensures
        (parse_terms_spec(pieces, whole) is Ok) <==> (forall|j: int|
            0 <= j < pieces.len() ==> (#[trigger] parse_term_spec(pieces[j], whole)) is Ok),
        parse_terms_spec(pieces, whole) matches Ok(ts) ==> ts.len() == pieces.len() && forall|j: int|
            0 <= j < pieces.len() ==> #[trigger] parse_term_spec(pieces[j], whole) == Ok::<
                TermView,
                WhereErrorView,
            >(ts[j]),
    decreases pieces.len(),
{
    if pieces.len() > 0 {
        let init = pieces.drop_last();
        let n = pieces.len() - 1;
        lemma_terms_are_pieces(init, whole);
        assert(pieces.last() == pieces[n]);
        match parse_terms_spec(init, whole) {
            Err(_) => {
                let j = choose|j: int| 0 <= j < init.len() && !(#[trigger] parse_term_spec(init[j], whole) is Ok);
                assert(init[j] == pieces[j]);
                assert(!(parse_term_spec(pieces[j], whole) is Ok));
            },
            Ok(ts) => {
                match parse_term_spec(pieces.last(), whole) {
                    Err(_) => {
                        assert(!(parse_term_spec(pieces[n], whole) is Ok));
                    },
                    Ok(t) => {
                        let all = ts.push(t);
                        assert(parse_terms_spec(pieces, whole) == Ok::<Seq<TermView>, WhereErrorView>(all));
                        assert forall|j: int| 0 <= j < pieces.len() implies #[trigger] parse_term_spec(
                            pieces[j],
                            whole,
                        ) == Ok::<TermView, WhereErrorView>(all[j]) by {
                            if j < n {
                                assert(init[j] == pieces[j]);
                                assert(parse_term_spec(init[j], whole) == Ok::<TermView, WhereErrorView>(ts[j]));
                            }
                        }
                    },
                }
            },
        }
    }
}

/// Every `--where` becomes one predicate, in order, keeping its text as
/// typed; its alternatives are its `|`-separated pieces, each read as a term
/// on its own. The whole is refused exactly when some piece is.
pub proof fn lemma_preds_are_pieces(raw: Seq<Seq<char>>)
    ensures
        (parse_preds_spec(raw) is Ok) <==> (forall|i: int|
            0 <= i < raw.len() ==> (#[trigger] parse_terms_spec(split_on(raw[i], '|'), raw[i])) is Ok),
        parse_preds_spec(raw) matches Ok((ps, _)) ==> ps.len() == raw.len() && forall|i: int|
            0 <= i < raw.len() ==> (#[trigger] ps[i]).text == raw[i] && parse_terms_spec(
                split_on(raw[i], '|'),
                raw[i],
            ) == Ok::<Seq<TermView>, WhereErrorView>(ps[i].any),
    decreases raw.len(),
{
    if raw.len() > 0 {
        let init = raw.drop_last();
        let n = raw.len() - 1;
        lemma_preds_are_pieces(init);
        assert(raw.last() == raw[n]);
        match parse_preds_spec(init) {
            Err(_) => {
                let i = choose|i: int|
                    0 <= i < init.len() && !(#[trigger] parse_terms_spec(split_on(init[i], '|'), init[i]) is Ok);
                assert(init[i] == raw[i]);
                assert(parse_preds_spec(raw) is Err);
                assert(!(parse_terms_spec(split_on(raw[i], '|'), raw[i]) is Ok));
            },
            Ok((ps, hs)) => {
                match parse_terms_spec(split_on(raw.last(), '|'), raw.last()) {
                    Err(_) => {
                        assert(parse_one_spec(raw.last()) is Err);
                        assert(parse_preds_spec(raw) is Err);
                        assert(!(parse_terms_spec(split_on(raw[n], '|'), raw[n]) is Ok));
                    },
                    Ok(ts) => {
                        let (p, h) = parse_one_spec(raw.last())->Ok_0;
                        assert(p == PredView { text: raw.last(), any: ts });
                        let all = ps.push(p);
                        assert(parse_preds_spec(raw) matches Ok((q, _)) && q == all);
                        assert forall|i: int| 0 <= i < raw.len() implies (#[trigger] all[i]).text == raw[i]
                            && parse_terms_spec(split_on(raw[i], '|'), raw[i]) == Ok::<
                            Seq<TermView>,
                            WhereErrorView,
                        >(all[i].any) by {
                            if i < n {
                                assert(all[i] == ps[i]);
                                assert(init[i] == raw[i]);
                            }
                        }
                        assert forall|i: int| 0 <= i < raw.len() implies (#[trigger] parse_terms_spec(
                            split_on(raw[i], '|'),
                            raw[i],
                        )) is Ok by {
                            assert(all[i].text == raw[i]);
                        }
                    },
                }
            },
        }
    }
}

/// Separate `--where` flags are anded: a record is kept by two lists of them
/// together exactly when each list keeps it.
pub proof fn lemma_flags_are_anded(fm: crate::fm::FmSpec, a: Seq<PredView>, b: Seq<PredView>)
    ensures
        keeps_spec(fm, a + b) <==> (keeps_spec(fm, a) && keeps_spec(fm, b)),
{
    if keeps_spec(fm, a + b) {
        assert forall|j: int| 0 <= j < a.len() implies pred_holds(fm, a[j]) by {
            assert((a + b)[j] == a[j]);
        }
        assert forall|j: int| 0 <= j < b.len() implies pred_holds(fm, b[j]) by {
            assert((a + b)[a.len() + j] == b[j]);
        }
    }
    if keeps_spec(fm, a) && keeps_spec(fm, b) {
        assert forall|j: int| 0 <= j < (a + b).len() implies pred_holds(fm, (a + b)[j]) by {
            if j < a.len() {
                assert((a + b)[j] == a[j]);
            } else {
                assert((a + b)[j] == b[j - a.len()]);
            }
        }
    }
}

} // verus!

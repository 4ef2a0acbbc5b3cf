//! The textual filter language: whitespace-separated terms of the form
//! `[#|@]property:[operator]value`, parsed into `FilterPredicate`
//! records and rendered back to a canonical text.
//!
//! `#` forces an inherent property, `@` an attribute; without a prefix
//! the split is decided later, per entity kind. The operator is a
//! leading `>`, `>=`, `<` or `<=` on the value; a trailing `+` is also
//! accepted for "this level or above" and is read as `>=`.

use vstd::prelude::*;

verus! {

/// Whether a predicate names an inherent property or an attribute.
#[derive(Debug, Copy, Clone, PartialEq, Eq, Structural)]
pub enum FilterPropertyKind {
    Inherent,
    Attribute,
}

/// The comparison a predicate applies to its value.
#[derive(Debug, Copy, Clone, PartialEq, Eq, Structural)]
pub enum FilterValueOperator {
    Gt,
    Gte,
    Lt,
    Lte,
}

/// Why a filter text failed to parse.
#[derive(Debug, Copy, Clone, PartialEq, Eq, Structural)]
pub enum FilterFormatError {
    MissingColon,
    EmptyProperty,
    EmptyValue,
}

/// One parsed filter term.
#[derive(Debug)]
pub struct FilterPredicate {
    pub property_kind: Option<FilterPropertyKind>,
    pub property: String,
    pub value_operator: Option<FilterValueOperator>,
    pub value: String,
}

/// The mathematical content of a predicate: its strings as sequences.
pub struct PredicateModel {
    pub kind: Option<FilterPropertyKind>,
    pub property: Seq<char>,
    pub op: Option<FilterValueOperator>,
    pub value: Seq<char>,
}

impl FilterPredicate {
    pub open spec fn model(self) -> PredicateModel {
        PredicateModel {
            kind: self.property_kind,
            property: self.property@,
            op: self.value_operator,
            value: self.value@,
        }
    }
}

/// The first index of `c` in `s`, or the length if `c` is absent.
pub open spec fn find_char(s: Seq<char>, c: char) -> int
    decreases s.len(),
{
    if s.len() == 0 {
        0
    } else if s[0] == c {
        0
    } else {
        1 + find_char(s.drop_first(), c)
    }
}

pub proof fn lemma_find_char(s: Seq<char>, c: char)
    ensures
        0 <= find_char(s, c) <= s.len(),
        forall|k: int| 0 <= k < find_char(s, c) ==> s[k] != c,
        find_char(s, c) < s.len() ==> s[find_char(s, c)] == c,
    decreases s.len(),
{
    if s.len() > 0 && s[0] != c {
        lemma_find_char(s.drop_first(), c);
        assert forall|k: int| 0 <= k < find_char(s, c) implies s[k] != c by {
            if k > 0 {
                assert(s.drop_first()[k - 1] != c);
            }
        }
    }
}

/// A position with no earlier occurrence pins `find_char` down.
pub proof fn lemma_find_char_is(s: Seq<char>, c: char, f: int)
    requires
        0 <= f <= s.len(),
        forall|k: int| 0 <= k < f ==> s[k] != c,
        f < s.len() ==> s[f] == c,
    ensures
        find_char(s, c) == f,
{
    lemma_find_char(s, c);
    let g = find_char(s, c);
    if g < f {
        assert(s[g] == c);
        assert(s[g] != c);
    }
    if f < g {
        assert(s[f] != c);
    }
}

/// The operator read off the front (or, for `+`, the back) of a value,
/// and the value that remains.
pub open spec fn spec_take_operator(after: Seq<char>) -> (Option<FilterValueOperator>, Seq<char>) {
    if after.len() >= 2 && after[0] == '<' && after[1] == '=' {
        (Some(FilterValueOperator::Lte), after.skip(2))
    } else if after.len() >= 2 && after[0] == '>' && after[1] == '=' {
        (Some(FilterValueOperator::Gte), after.skip(2))
    } else if after.len() >= 1 && after[0] == '<' {
        (Some(FilterValueOperator::Lt), after.skip(1))
    } else if after.len() >= 1 && after[0] == '>' {
        (Some(FilterValueOperator::Gt), after.skip(1))
    } else if after.len() >= 2 && after.last() == '+' {
        (Some(FilterValueOperator::Gte), after.drop_last())
    } else {
        (None, after)
    }
}

/// What parsing one term yields.
pub open spec fn spec_term_parse(t: Seq<char>) -> Result<PredicateModel, FilterFormatError> {
    let (kind, rest) = if t.len() > 0 && t[0] == '#' {
        (Some(FilterPropertyKind::Inherent), t.skip(1))
    } else if t.len() > 0 && t[0] == '@' {
        (Some(FilterPropertyKind::Attribute), t.skip(1))
    } else {
        (None, t)
    };
    let c = find_char(rest, ':');
    if c >= rest.len() {
        Err(FilterFormatError::MissingColon)
    } else if c == 0 {
        Err(FilterFormatError::EmptyProperty)
    } else {
        let after = rest.skip(c + 1);
        let (op, value) = spec_take_operator(after);
        if value.len() == 0 {
            Err(FilterFormatError::EmptyValue)
        } else {
            Ok(PredicateModel { kind, property: rest.take(c), op, value })
        }
    }
}

/// The canonical text of a property kind.
pub open spec fn spec_kind_text(kind: Option<FilterPropertyKind>) -> Seq<char> {
    match kind {
        Some(FilterPropertyKind::Inherent) => seq!['#'],
        Some(FilterPropertyKind::Attribute) => seq!['@'],
        None => Seq::empty(),
    }
}

/// The canonical text of an operator.
pub open spec fn spec_operator_text(op: Option<FilterValueOperator>) -> Seq<char> {
    match op {
        Some(FilterValueOperator::Gt) => seq!['>'],
        Some(FilterValueOperator::Gte) => seq!['>', '='],
        Some(FilterValueOperator::Lt) => seq!['<'],
        Some(FilterValueOperator::Lte) => seq!['<', '='],
        None => Seq::empty(),
    }
}

/// The canonical text of a predicate.
pub open spec fn spec_render_term(m: PredicateModel) -> Seq<char> {
    spec_kind_text(m.kind) + m.property + seq![':'] + spec_operator_text(m.op) + m.value
}

/// The models that parse and validation can produce: the property is
/// nonempty and holds no colon, the value is nonempty, a value without
/// an operator cannot begin like one or end in `+`, and a `<` or `>`
/// value cannot begin with `=` (the text would have read `<=`/`>=`).
pub open spec fn canonical_model(m: PredicateModel) -> bool {
    &&& m.kind is Some
    &&& m.property.len() > 0
    &&& (forall|i: int| 0 <= i < m.property.len() ==> m.property[i] != ':')
    &&& m.value.len() > 0
    &&& (m.op is None ==> m.value[0] != '<' && m.value[0] != '>' && m.value.last() != '+')
    &&& ((m.op == Some(FilterValueOperator::Lt) || m.op == Some(FilterValueOperator::Gt))
        ==> m.value[0] != '=')
}

/// Rendering a canonical predicate and parsing the text back yields the
/// same predicate: the canonical text is a fixed point of the language.
pub proof fn lemma_term_round_trip(m: PredicateModel)
    requires
        canonical_model(m),
    ensures
        spec_term_parse(spec_render_term(m)) == Ok::<PredicateModel, FilterFormatError>(m),
{
    let t = spec_render_term(m);
    let kseq = spec_kind_text(m.kind);
    let oseq = spec_operator_text(m.op);
    assert(kseq.len() == 1);
    assert(t[0] == kseq[0]);
    let rest = t.skip(1);
    assert(rest =~= m.property + seq![':'] + oseq + m.value);
    let plen = m.property.len() as int;
    assert forall|k: int| 0 <= k < plen implies rest[k] != ':' by {
        assert(rest[k] == m.property[k]);
    }
    assert(rest[plen] == ':');
    lemma_find_char_is(rest, ':', plen);
    assert(rest.take(plen) =~= m.property);
    let after = rest.skip(plen + 1);
    assert(after =~= oseq + m.value);
    let (op, value) = spec_take_operator(after);
    match m.op {
        Some(FilterValueOperator::Lte) => {
            assert(after[0] == '<' && after[1] == '=');
            assert(after.skip(2) =~= m.value);
        },
        Some(FilterValueOperator::Gte) => {
            assert(after[0] == '>' && after[1] == '=');
            assert(after.skip(2) =~= m.value);
        },
        Some(FilterValueOperator::Lt) => {
            assert(after[0] == '<');
            assert(after.len() >= 2 ==> after[1] == m.value[0]);
            assert(after.skip(1) =~= m.value);
        },
        Some(FilterValueOperator::Gt) => {
            assert(after[0] == '>');
            assert(after.len() >= 2 ==> after[1] == m.value[0]);
            assert(after.skip(1) =~= m.value);
        },
        None => {
            assert(after =~= m.value);
            assert(after[0] != '<' && after[0] != '>');
            assert(after.last() != '+');
        },
    }
    assert(op == m.op);
    assert(value =~= m.value);
}

/// The terms of a filter text: maximal space-free segments.
pub open spec fn split_terms(t: Seq<char>) -> Seq<Seq<char>>
    decreases t.len(),
    via split_terms_decreases
{
    if t.len() == 0 {
        Seq::empty()
    } else if t[0] == ' ' {
        split_terms(t.drop_first())
    } else {
        let e = find_char(t, ' ');
        seq![t.take(e)] + split_terms(t.skip(e))
    }
}

#[via_fn]
proof fn split_terms_decreases(t: Seq<char>) {
    if t.len() > 0 && t[0] != ' ' {
        lemma_find_char(t, ' ');
        assert(find_char(t, ' ') >= 1);
    }
}

/// Parses one term.
#[verifier::rlimit(80)]
fn parse_term(t: &str) -> (r: Result<FilterPredicate, FilterFormatError>)
    ensures
        match r {
            Ok(p) => spec_term_parse(t@) == Ok::<PredicateModel, FilterFormatError>(p.model()),
            Err(e) => spec_term_parse(t@) == Err::<PredicateModel, FilterFormatError>(e),
        },
{
    let n = t.unicode_len();
    let (kind, off): (Option<FilterPropertyKind>, usize) = if n > 0 && t.get_char(0) == '#' {
        (Some(FilterPropertyKind::Inherent), 1)
    } else if n > 0 && t.get_char(0) == '@' {
        (Some(FilterPropertyKind::Attribute), 1)
    } else {
        (None, 0)
    };
    let ghost rest = t@.skip(off as int);
    proof {
        if off == 0 {
            assert(rest =~= t@);
        }
    }
    // find the colon that splits property from value
    let mut i: usize = off;
    while i < n && t.get_char(i) != ':'
        invariant
            n == t@.len(),
            off <= i <= n,
            forall|k: int| off <= k < i ==> t@[k] != ':',
        decreases n - i,
    {
        i = i + 1;
    }
    proof {
        assert forall|k: int| 0 <= k < i - off implies rest[k] != ':' by {
            assert(rest[k] == t@[k + off]);
        }
        if i < n {
            assert(rest[i - off] == ':');
        }
        lemma_find_char_is(rest, ':', i - off as int);
    }
    if i == n {
        return Err(FilterFormatError::MissingColon);
    }
    if i == off {
        return Err(FilterFormatError::EmptyProperty);
    }
    let property = t.substring_char(off, i).to_owned();
    proof {
        assert(property@ =~= rest.take(i - off as int));
    }
    let after_start = i + 1;
    let alen = n - after_start;
    let ghost after = rest.skip(i - off as int + 1);
    proof {
        assert(after =~= t@.skip(after_start as int));
    }
    let (op, vstart, vend): (Option<FilterValueOperator>, usize, usize) = if alen >= 2
        && t.get_char(after_start) == '<' && t.get_char(after_start + 1) == '=' {
        (Some(FilterValueOperator::Lte), after_start + 2, n)
    } else if alen >= 2 && t.get_char(after_start) == '>' && t.get_char(after_start + 1) == '=' {
        (Some(FilterValueOperator::Gte), after_start + 2, n)
    } else if alen >= 1 && t.get_char(after_start) == '<' {
        (Some(FilterValueOperator::Lt), after_start + 1, n)
    } else if alen >= 1 && t.get_char(after_start) == '>' {
        (Some(FilterValueOperator::Gt), after_start + 1, n)
    } else if alen >= 2 && t.get_char(n - 1) == '+' {
        (Some(FilterValueOperator::Gte), after_start, n - 1)
    } else {
        (None, after_start, n)
    };
    proof {
        assert(after.len() == alen);
        assert forall|k: int| 0 <= k < after.len() implies after[k] == t@[after_start + k] by {
            assert(after[k] == rest[k + (i - off as int + 1)]);
        }
        if after.len() >= 1 {
            assert(after[0] == t@[after_start as int]);
        }
        if after.len() >= 2 {
            assert(after[1] == t@[after_start + 1]);
            assert(after.last() == t@[n - 1]);
        }
        let (sop, svalue) = spec_take_operator(after);
        assert(sop == op);
        assert(svalue =~= t@.subrange(vstart as int, vend as int));
    }
    if vend <= vstart {
        return Err(FilterFormatError::EmptyValue);
    }
    let value = t.substring_char(vstart, vend).to_owned();
    let result = FilterPredicate { property_kind: kind, property, value_operator: op, value };
    proof {
        let m = result.model();
        let sm = spec_term_parse(t@)->Ok_0;
        assert(m.property == sm.property && m.value == sm.value && m.kind == sm.kind && m.op
            == sm.op);
        assert(spec_term_parse(t@) == Ok::<PredicateModel, FilterFormatError>(m));
    }
    Ok(result)
}

impl FilterPredicate {
    /// Parses a filter text into its terms, left to right; the first
    /// ill-formed term decides the error.
    pub fn parse(text: &str) -> (r: Result<Vec<FilterPredicate>, FilterFormatError>)
        ensures
            match r {
                Ok(ps) => {
                    &&& ps@.len() == split_terms(text@).len()
                    &&& forall|i: int|
                        0 <= i < ps@.len() ==> spec_term_parse(split_terms(text@)[i]) == Ok::<
                            PredicateModel,
                            FilterFormatError,
                        >(ps@[i].model())
                },
                Err(e) => exists|i: int|
                    0 <= i < split_terms(text@).len() && spec_term_parse(
                        #[trigger] split_terms(text@)[i],
                    ) == Err::<PredicateModel, FilterFormatError>(e),
            },
    {
        let ghost ts = split_terms(text@);
        let n = text.unicode_len();
        let mut out: Vec<FilterPredicate> = Vec::new();
        let mut i: usize = 0;
        proof {
            assert(text@.skip(0) =~= text@);
            assert(ts.skip(0) =~= ts);
        }
        while i < n
            invariant
                n == text@.len(),
                0 <= i <= n,
                ts == split_terms(text@),
                split_terms(text@.skip(i as int)) =~= ts.skip(out@.len() as int),
                out@.len() <= ts.len(),
                forall|j: int|
                    0 <= j < out@.len() ==> spec_term_parse(ts[j]) == Ok::<
                        PredicateModel,
                        FilterFormatError,
                    >(out@[j].model()),
            decreases n - i,
        {
            if text.get_char(i) == ' ' {
                proof {
                    let s = text@.skip(i as int);
                    assert(s[0] == ' ');
                    assert(s.drop_first() =~= text@.skip(i + 1));
                }
                i = i + 1;
            } else {
                // find the end of this term
                let mut j: usize = i;
                while j < n && text.get_char(j) != ' '
                    invariant
                        n == text@.len(),
                        i <= j <= n,
                        forall|k: int| i <= k < j ==> text@[k] != ' ',
                        text@[i as int] != ' ',
                    decreases n - j,
                {
                    j = j + 1;
                }
                let ghost s = text@.skip(i as int);
                proof {
                    assert forall|k: int| 0 <= k < j - i implies s[k] != ' ' by {
                        assert(s[k] == text@[k + i]);
                    }
                    if j < n {
                        assert(s[j - i as int] == ' ');
                    }
                    lemma_find_char_is(s, ' ', j - i as int);
                    assert(split_terms(s) == seq![s.take(j - i as int)] + split_terms(
                        s.skip(j - i as int),
                    ));
                    assert(s.skip(j - i as int) =~= text@.skip(j as int));
                }
                let term = text.substring_char(i, j);
                proof {
                    assert(term@ =~= s.take(j - i as int));
                    assert(ts.skip(out@.len() as int)[0] == ts[out@.len() as int]);
                    assert(ts[out@.len() as int] == term@);
                }
                match parse_term(term) {
                    Ok(p) => {
                        let ghost prev = out@.len() as int;
                        out.push(p);
                        proof {
                            assert(split_terms(text@.skip(j as int)) =~= ts.skip(prev + 1)) by {
                                assert(split_terms(s) == seq![s.take(j - i as int)] + split_terms(
                                    s.skip(j - i as int),
                                ));
                                assert(split_terms(s) =~= ts.skip(prev));
                                assert(ts.skip(prev).drop_first() =~= ts.skip(prev + 1));
                            }
                        }
                        i = j;
                    },
                    Err(e) => {
                        proof {
                            assert(spec_term_parse(ts[out@.len() as int]) == Err::<
                                PredicateModel,
                                FilterFormatError,
                            >(e));
                        }
                        return Err(e);
                    },
                }
            }
        }
        proof {
            assert(text@.skip(n as int) =~= Seq::<char>::empty());
            assert(ts.skip(out@.len() as int).len() == 0);
            assert(out@.len() == ts.len());
        }
        Ok(out)
    }

    /// Renders the predicate in canonical form: prefix, property,
    /// colon, operator, value.
    pub fn render(&self) -> (r: String)
        ensures
            r@ == spec_render_term(self.model()),
    {
        let mut out = String::new();
        match self.property_kind {
            Some(FilterPropertyKind::Inherent) => {
                proof {
                    reveal_strlit("#");
                }
                out.append("#");
            },
            Some(FilterPropertyKind::Attribute) => {
                proof {
                    reveal_strlit("@");
                }
                out.append("@");
            },
            None => {},
        }
        out.append(self.property.as_str());
        proof {
            reveal_strlit(":");
        }
        out.append(":");
        match self.value_operator {
            Some(FilterValueOperator::Gt) => {
                proof {
                    reveal_strlit(">");
                }
                out.append(">");
            },
            Some(FilterValueOperator::Gte) => {
                proof {
                    reveal_strlit(">=");
                }
                out.append(">=");
            },
            Some(FilterValueOperator::Lt) => {
                proof {
                    reveal_strlit("<");
                }
                out.append("<");
            },
            Some(FilterValueOperator::Lte) => {
                proof {
                    reveal_strlit("<=");
                }
                out.append("<=");
            },
            None => {},
        }
        out.append(self.value.as_str());
        proof {
            assert(out@ =~= spec_render_term(self.model()));
        }
        out
    }
}

/// A predicate as presented to the host: the parsed parts plus the
/// canonical text.
#[derive(Debug)]
pub struct FilterPredicateView {
    pub text: String,
    pub property_kind: Option<FilterPropertyKind>,
    pub property: String,
    pub value_operator: Option<FilterValueOperator>,
    pub value: String,
}

impl FilterPredicateView {
    pub fn from_inner(inner: FilterPredicate) -> (r: FilterPredicateView)
        ensures
            r.text@ == spec_render_term(inner.model()),
            r.property_kind == inner.property_kind,
            r.property@ == inner.property@,
            r.value_operator == inner.value_operator,
            r.value@ == inner.value@,
    {
        let text = inner.render();
        FilterPredicateView {
            text,
            property_kind: inner.property_kind,
            property: inner.property,
            value_operator: inner.value_operator,
            value: inner.value,
        }
    }
}

} // verus!

//! Picking one language out of a schema label.
//!
//! A third-party applet ships its labels in every language inside the schema file, the way a
//! `.desktop` file carries `Name[uk]`: a label is a table from language to text, in
//! which the empty key is the mandatory English fallback.
use vstd::prelude::*;
use crate::table::StrTable;
use crate::text::{chars_of, slice_to_vec, string_of};

verus! {

/// A label in every language the applet author supplied, keyed by language; the empty
/// key holds English.
pub type L10n = StrTable;

/// Index of the first `_`, `.` or `@` in a language tag, or its length.
pub open spec fn base_end(s: Seq<char>) -> int
    decreases s.len(),
{
    if s.len() == 0 {
        0
    } else if s[0] == '_' || s[0] == '.' || s[0] == '@' {
        0
    } else {
        1 + base_end(s.drop_first())
    }
}

proof fn lemma_base_end(s: Seq<char>)
    ensures
        0 <= base_end(s) <= s.len(),
        base_end(s) < s.len() ==> (s[base_end(s)] == '_' || s[base_end(s)] == '.' || s[base_end(s)] == '@'),
        forall|j: int| 0 <= j < base_end(s) ==> !(s[j] == '_' || s[j] == '.' || s[j] == '@'),
    decreases s.len(),
{
    if s.len() > 0 && !(s[0] == '_' || s[0] == '.' || s[0] == '@') {
        lemma_base_end(s.drop_first());
        assert forall|j: int| 0 <= j < base_end(s) implies !(s[j] == '_' || s[j] == '.' || s[j] == '@') by {
            if j > 0 {
                assert(s[j] == s.drop_first()[j - 1]);
            }
        }
    }
}

proof fn lemma_base_end_is(s: Seq<char>, k: int)
    requires
        0 <= k <= s.len(),
        k < s.len() ==> (s[k] == '_' || s[k] == '.' || s[k] == '@'),
        forall|j: int| 0 <= j < k ==> !(s[j] == '_' || s[j] == '.' || s[j] == '@'),
    ensures
        base_end(s) == k,
    decreases s.len(),
{
    if s.len() > 0 && k > 0 {
        assert forall|j: int| 0 <= j < k - 1 implies !(s.drop_first()[j] == '_' || s.drop_first()[j] == '.' || s.drop_first()[j] == '@') by {
            assert(s.drop_first()[j] == s[j + 1]);
        }
        if k < s.len() {
            assert(s.drop_first()[k - 1] == s[k]);
        }
        lemma_base_end_is(s.drop_first(), k - 1);
    }
}

/// The language without its territory, codeset or modifier (`uk_UA` answers to `uk`),
/// when it has one.
pub open spec fn base_language(s: Seq<char>) -> Option<Seq<char>> {
    let e = base_end(s);
    if e < s.len() {
        Some(s.subrange(0, e))
    } else {
        None
    }
}

/// The text `languages` (most specific first) pick out of `label`: for each language,
/// its own entry, else its base language's; English when none matches; empty when the
/// label has no English either.
pub open spec fn resolve_in(label: Map<Seq<char>, Seq<char>>, languages: Seq<Seq<char>>) -> Seq<char>
    decreases languages.len(),
{
    if languages.len() == 0 {
        match label.get(seq![]) {
            Some(t) => t,
            None => seq![],
        }
    } else {
        let l = languages[0];
        match label.get(l) {
            Some(t) => t,
            None => match base_language(l) {
                Some(b) => match label.get(b) {
                    Some(t) => t,
                    None => resolve_in(label, languages.drop_first()),
                },
                None => resolve_in(label, languages.drop_first()),
            },
        }
    }
}

pub open spec fn strings(v: Seq<String>) -> Seq<Seq<char>> {
    v.map_values(|s: String| s@)
}

/// Resolves a label against the environment's language preference, `languages` ordered
/// most specific first (`uk_UA` before `uk`).
pub fn resolve(label: &L10n, languages: &Vec<String>) -> (r: String)
    requires
        label.wf(),
    ensures
        r@ == resolve_in(label@, strings(languages@)),
{
    let ghost ls = strings(languages@);
    let mut i: usize = 0;
    proof {
        assert(ls.subrange(0, ls.len() as int) =~= ls);
    }
    while i < languages.len()
        invariant
            label.wf(),
            i <= languages@.len(),
            ls == strings(languages@),
            resolve_in(label@, ls.subrange(i as int, ls.len() as int)) == resolve_in(label@, ls),
        decreases languages@.len() - i,
    {
        proof {
            let t = ls.subrange(i as int, ls.len() as int);
            assert(t.drop_first() =~= ls.subrange(i + 1, ls.len() as int));
            assert(t[0] == languages@[i as int]@);
        }
        let l = chars_of(languages[i].as_str());
        match label.get(l.as_slice()) {
            Some(t) => return t.clone(),
            None => {},
        }
        let mut e: usize = 0;
        while e < l.len() && !(l[e] == '_' || l[e] == '.' || l[e] == '@')
            invariant
                e <= l@.len(),
                forall|j: int| 0 <= j < e ==> !(l@[j] == '_' || l@[j] == '.' || l@[j] == '@'),
            decreases l@.len() - e,
        {
            e += 1;
        }
        proof {
            lemma_base_end_is(l@, e as int);
        }
        if e < l.len() {
            let b = slice_to_vec(l.as_slice(), 0, e);
            match label.get(b.as_slice()) {
                Some(t) => return t.clone(),
                None => {},
            }
        }
        i += 1;
    }
    let empty: Vec<char> = Vec::new();
    proof {
        assert(empty@ =~= seq![]);
    }
    match label.get(empty.as_slice()) {
        Some(t) => t.clone(),
        None => String::new(),
    }
}

pub open spec fn opt_text(o: Option<String>) -> Option<Seq<char>> {
    match o {
        Some(s) => Some(s@),
        None => None,
    }
}

/// The same for an optional label; an empty result is no text.
pub fn resolve_opt(label: Option<&L10n>, languages: &Vec<String>) -> (r: Option<String>)
    requires
        label matches Some(l) ==> l.wf(),
    ensures
        opt_text(r) == (match label {
            Some(l) => {
                let t = resolve_in(l@, strings(languages@));
                if t.len() == 0 {
                    None
                } else {
                    Some(t)
                }
            },
            None => None,
        }),
{
    match label {
        Some(l) => {
            let t = resolve(l, languages);
            let c = chars_of(t.as_str());
            if c.len() == 0 {
                None
            } else {
                Some(t)
            }
        },
        None => None,
    }
}

} // verus!

//! Application shortcuts: the actions an application names, and the commands a
//! shortcut starts.
use vstd::prelude::*;
use crate::order::{is_stable_lex_order, key_views, lex_lt, stable_lex_order};
use super::l10n::L10n;
use crate::text::{
    chars_eq, chars_of, contains_chars, contains_seq, fields, fields_of, lowercase, str_to_lowercase,
    string_of, views, Class,
};

verus! {

/// The action an application spells in its own configuration.
///
/// The settings app never knows what these mean; it only carries them between the
/// declaration an application ships and the application's config file, stored the way
/// the application's own enum serializes - a bare RON identifier, `TabNew`, not
/// `"TabNew"`.
pub struct ActionName(pub String);

impl ActionName {
    pub fn new(name: String) -> (a: Self)
        ensures
            a.0@ == name@,
    {
        ActionName(name)
    }

    /// The action that takes a shipped binding away.
    pub fn disable() -> (a: Self)
        ensures
            a.0@ == "Disable"@,
    {
        ActionName(String::from_str("Disable"))
    }

    pub fn as_str(&self) -> (s: &str)
        ensures
            s@ == self.0@,
    {
        self.0.as_str()
    }

    /// Whether this is the action that takes a binding away.
    pub fn is_disable(&self) -> (b: bool)
        ensures
            b == (self.0@ == "Disable"@),
    {
        let c = chars_of(self.0.as_str());
        let d = chars_of("Disable");
        chars_eq(c.as_slice(), d.as_slice())
    }
}

/// The names handed out so far: each distinct name is kept once, and asking again for
/// a name hands back the same one.
pub struct Names {
    names: Vec<String>,
}

pub open spec fn names_distinct(v: Seq<String>) -> bool {
    forall|i: int, j: int| 0 <= i < v.len() && 0 <= j < v.len() && v[i]@ == v[j]@ ==> i == j
}

impl View for Names {
    type V = Seq<Seq<char>>;

    closed spec fn view(&self) -> Seq<Seq<char>> {
        self.names@.map_values(|s: String| s@)
    }
}

impl Names {
    pub closed spec fn wf(&self) -> bool {
        names_distinct(self.names@)
    }

    pub fn new() -> (n: Self)
        ensures
            n.wf(),
            n@ == Seq::<Seq<char>>::empty(),
    {
        let n = Names { names: Vec::new() };
        proof {
            assert(n@ =~= Seq::<Seq<char>>::empty());
        }
        n
    }

    /// The index of `name`, adding it when it is new: equal names always get the same
    /// index, and the name stored there is `name`.
    pub fn intern(&mut self, name: &str) -> (i: usize)
        requires
            old(self).wf(),
        ensures
            final(self).wf(),
            i < final(self)@.len(),
            final(self)@[i as int] == name@,
            forall|k: int| 0 <= k < final(self)@.len() && #[trigger] final(self)@[k] == name@ ==> k == i,
            old(self)@.contains(name@) ==> final(self)@ == old(self)@,
            !old(self)@.contains(name@) ==> final(self)@ == old(self)@.push(name@),
    {
        let c = chars_of(name);
        let mut i: usize = 0;
        while i < self.names.len()
            invariant
                i <= self.names@.len(),
                self.wf(),
                c@ == name@,
                forall|j: int| 0 <= j < i ==> self.names@[j]@ != name@,
            decreases self.names@.len() - i,
        {
            let s = chars_of(self.names[i].as_str());
            if chars_eq(s.as_slice(), c.as_slice()) {
                proof {
                    assert(self@[i as int] == name@);
                    assert(self@.contains(name@));
                    assert forall|k: int| 0 <= k < self@.len() && #[trigger] self@[k] == name@ implies k == i by {
                        assert(self.names@[k]@ == self@[k]);
                    }
                }
                return i;
            }
            i += 1;
        }
        proof {
            if self@.contains(name@) {
                let k = choose|k: int| 0 <= k < self@.len() && self@[k] == name@;
                assert(self.names@[k]@ == name@);
            }
        }
        let ghost old_names = self.names@;
        self.names.push(name.to_owned());
        proof {
            assert(self@ =~= old(self)@.push(name@));
            assert forall|a: int, b: int| 0 <= a < self.names@.len() && 0 <= b < self.names@.len() && self.names@[a]@ == self.names@[b]@ implies a == b by {
                if a < old_names.len() && b < old_names.len() {
                    assert(old_names[a]@ == old_names[b]@);
                }
            }
            let n = self.names@.len() - 1;
            assert forall|k: int| 0 <= k < self@.len() && #[trigger] self@[k] == name@ implies k == n by {
                assert(self.names@[k]@ == self@[k]);
                assert(self.names@[n]@ == name@);
            }
        }
        self.names.len() - 1
    }
}

// ---------------------------------------------------------------- launch commands

/// A desktop entry field code: `%` and one of `fFuUdDnNickvm`, as a whole token.
pub open spec fn field_code(t: Seq<char>) -> bool {
    t.len() == 2 && t[0] == '%' && "fFuUdDnNickvm"@.contains(t[1])
}

/// The tokens that are not field codes.
pub open spec fn kept_tokens(ts: Seq<Seq<char>>) -> Seq<Seq<char>>
    decreases ts.len(),
{
    if ts.len() == 0 {
        seq![]
    } else {
        let p = kept_tokens(ts.drop_last());
        if field_code(ts.last()) {
            p
        } else {
            p.push(ts.last())
        }
    }
}

/// Tokens joined by single spaces.
pub open spec fn joined(ts: Seq<Seq<char>>) -> Seq<char>
    decreases ts.len(),
{
    if ts.len() == 0 {
        seq![]
    } else if ts.len() == 1 {
        ts[0]
    } else {
        joined(ts.drop_last()) + seq![' '] + ts.last()
    }
}

pub fn is_field_code(token: &[char]) -> (b: bool)
    ensures
        b == field_code(token@),
{
    if token.len() != 2 || token[0] != '%' {
        return false;
    }
    let codes = chars_of("fFuUdDnNickvm");
    let c = token[1];
    let mut i: usize = 0;
    while i < codes.len()
        invariant
            i <= codes@.len(),
            codes@ == "fFuUdDnNickvm"@,
            token@.len() == 2,
            token@[0] == '%',
            c == token@[1],
            forall|j: int| 0 <= j < i ==> codes@[j] != c,
        decreases codes@.len() - i,
    {
        if codes[i] == c {
            proof {
                assert("fFuUdDnNickvm"@[i as int] == c);
                assert("fFuUdDnNickvm"@.contains(c));
                assert(token@[1] == c);
            }
            return true;
        }
        i += 1;
    }
    false
}

/// Drops the desktop entry field codes from a command line.
///
/// `%U` and its siblings stand for the files or urls an application was opened with.
/// A shortcut opens it with nothing, and the compositor passes the string to a shell
/// verbatim, so a surviving code would arrive as a literal argument.
pub fn strip_field_codes(exec: &str) -> (r: String)
    ensures
        r@ == joined(kept_tokens(fields(exec@, Class::Ws))),
{
    let c = chars_of(exec);
    let ts = fields_of(c.as_slice(), &Class::Ws);
    let ghost tv = views(ts@);
    let mut out: Vec<char> = Vec::new();
    let mut count: usize = 0;
    let mut i: usize = 0;
    while i < ts.len()
        invariant
            i <= ts@.len(),
            tv == views(ts@),
            tv == fields(exec@, Class::Ws),
            out@ == joined(kept_tokens(tv.subrange(0, i as int))),
            count == kept_tokens(tv.subrange(0, i as int)).len(),
            count <= i,
        decreases ts@.len() - i,
    {
        let ghost pre = kept_tokens(tv.subrange(0, i as int));
        proof {
            assert(tv.subrange(0, i + 1).drop_last() =~= tv.subrange(0, i as int));
            assert(tv.subrange(0, i + 1).last() == ts@[i as int]@);
        }
        let t = ts[i].as_slice();
        if !is_field_code(t) {
            let ghost start = out@;
            if count > 0 {
                out.push(' ');
            }
            let ghost mid = out@;
            let mut k: usize = 0;
            while k < t.len()
                invariant
                    k <= t@.len(),
                    out@ == mid + t@.subrange(0, k as int),
                decreases t@.len() - k,
            {
                proof {
                    assert(t@.subrange(0, k + 1) =~= t@.subrange(0, k as int).push(t@[k as int]));
                }
                out.push(t[k]);
                k += 1;
            }
            proof {
                assert(t@.subrange(0, t@.len() as int) =~= t@);
                let now = kept_tokens(tv.subrange(0, i + 1));
                assert(now == pre.push(t@));
                assert(now.drop_last() =~= pre);
                if count == 0 {
                    assert(pre.len() == 0);
                    assert(joined(pre) =~= seq![]);
                    assert(out@ =~= joined(now));
                } else {
                    assert(out@ =~= joined(pre) + seq![' '] + t@);
                }
            }
            count += 1;
        }
        i += 1;
    }
    proof {
        assert(tv.subrange(0, tv.len() as int) =~= tv);
    }
    string_of(out.as_slice())
}

// ---------------------------------------------------------------- the picker

/// What a search matches an entry against: its name and its application's, lower-cased
/// and joined by a space.
pub open spec fn haystack_of(name: Seq<char>, application: Option<Seq<char>>) -> Seq<char> {
    match application {
        Some(a) => lowercase(name) + seq![' '] + lowercase(a),
        None => lowercase(name),
    }
}

pub open spec fn opt_view(o: Option<String>) -> Option<Seq<char>> {
    match o {
        Some(s) => Some(s@),
        None => None,
    }
}

/// One line of the picker: a thing a key combination can be bound to. (The icon shown
/// with it travels beside it.)
pub struct Entry {
    /// What to call it.
    pub name: String,
    /// The application it belongs to, for an action that is not the application itself.
    /// Two applications may well both declare "New Window".
    pub application: Option<String>,
    /// The command stored in the shortcut.
    pub command: String,
    /// Lower-cased name and application, for matching against a search.
    pub haystack: String,
}

fn push_str(v: &mut Vec<char>, s: &str)
    ensures
        final(v)@ == old(v)@ + s@,
{
    let c = chars_of(s);
    let ghost start = v@;
    let mut i: usize = 0;
    while i < c.len()
        invariant
            i <= c@.len(),
            c@ == s@,
            v@ == start + c@.subrange(0, i as int),
        decreases c@.len() - i,
    {
        proof {
            assert(c@.subrange(0, i + 1) =~= c@.subrange(0, i as int).push(c@[i as int]));
        }
        v.push(c[i]);
        i += 1;
    }
    proof {
        assert(c@.subrange(0, c@.len() as int) =~= c@);
    }
}

impl Entry {
    /// The text a search is matched against.
    pub open spec fn haystack(&self) -> Seq<char> {
        self.haystack@
    }

    pub fn new(name: String, application: Option<String>, command: String) -> (e: Self)
        ensures
            e.name@ == name@,
            opt_view(e.application) == opt_view(application),
            e.command@ == command@,
            e.haystack() == haystack_of(name@, opt_view(application)),
    {
        let mut v: Vec<char> = Vec::new();
        let n = str_to_lowercase(name.as_str());
        push_str(&mut v, n.as_str());
        match &application {
            Some(a) => {
                v.push(' ');
                let l = str_to_lowercase(a.as_str());
                push_str(&mut v, l.as_str());
            },
            None => {},
        }
        proof {
            assert(v@ =~= haystack_of(name@, opt_view(application)));
        }
        Entry { name, application, command, haystack: string_of(v.as_slice()) }
    }

    /// Whether a lower-cased search matches: every word of it occurs in the name or the
    /// application's name.
    pub fn matches(&self, search: &str) -> (r: bool)
        ensures
            r == (forall|i: int|
                0 <= i < fields(search@, Class::Ws).len() ==> contains_seq(
                    self.haystack(),
                    #[trigger] fields(search@, Class::Ws)[i],
                )),
    {
        let c = chars_of(search);
        let ws = fields_of(c.as_slice(), &Class::Ws);
        let h = chars_of(self.haystack.as_str());
        let mut i: usize = 0;
        while i < ws.len()
            invariant
                i <= ws@.len(),
                views(ws@) == fields(search@, Class::Ws),
                h@ == self.haystack(),
                forall|j: int| 0 <= j < i ==> contains_seq(h@, #[trigger] fields(search@, Class::Ws)[j]),
            decreases ws@.len() - i,
        {
            proof {
                assert(views(ws@)[i as int] == ws@[i as int]@);
            }
            if !contains_chars(h.as_slice(), ws[i].as_slice()) {
                return false;
            }
            i += 1;
        }
        true
    }
}

/// The command that starts an application: its `Exec` without field codes, run in
/// `terminal` for a terminal application; none when nothing is left to run.
pub open spec fn launch_spec(exec: Option<Seq<char>>, in_terminal: bool, terminal: Seq<char>) -> Option<Seq<char>> {
    match exec {
        Some(e) => {
            let c = joined(kept_tokens(fields(e, Class::Ws)));
            if c.len() == 0 {
                None
            } else if in_terminal {
                Some(terminal + " -e "@ + c)
            } else {
                Some(c)
            }
        },
        None => None,
    }
}

pub fn launch_command(exec: Option<&str>, in_terminal: bool, terminal: &str) -> (r: Option<String>)
    ensures
        opt_view(r) == launch_spec(match exec {
            Some(e) => Some(e@),
            None => None,
        }, in_terminal, terminal@),
{
    let e = match exec {
        Some(e) => e,
        None => return None,
    };
    let c = strip_field_codes(e);
    if c.as_str().unicode_len() == 0 {
        return None;
    }
    if !in_terminal {
        return Some(c);
    }
    let mut v: Vec<char> = Vec::new();
    push_str(&mut v, terminal);
    push_str(&mut v, " -e ");
    push_str(&mut v, c.as_str());
    proof {
        reveal_strlit(" -e ");
    }
    Some(string_of(v.as_slice()))
}

/// The sort key of a picker line: the application (or, for an application itself, its
/// name), then whether it is an action, then its name. Characters are shifted up by one
/// so that the `0` closing the first part sorts a shorter name first, as string order
/// does.
pub open spec fn shifted(s: Seq<char>) -> Seq<u32> {
    s.map_values(|c: char| shift(c))
}

/// A character's code plus one (every code is far below `u32::MAX`).
pub open spec fn shift(c: char) -> u32 {
    if (c as u32) < u32::MAX {
        (c as u32 + 1) as u32
    } else {
        c as u32
    }
}

pub open spec fn entry_key(e: Entry) -> Seq<u32> {
    let head = match e.application {
        Some(a) => a@,
        None => e.name@,
    };
    shifted(head) + seq![0u32, if e.application is Some {
        1u32
    } else {
        0u32
    }] + shifted(e.name@)
}

pub open spec fn entry_keys(es: Seq<Entry>) -> Seq<Seq<u32>> {
    es.map_values(|e: Entry| entry_key(e))
}

proof fn lemma_lex_common_prefix(p: Seq<u32>, a: Seq<u32>, b: Seq<u32>)
    ensures
        lex_lt(p + a, p + b) == lex_lt(a, b),
    decreases p.len(),
{
    if p.len() > 0 {
        assert((p + a).drop_first() =~= p.drop_first() + a);
        assert((p + b).drop_first() =~= p.drop_first() + b);
        lemma_lex_common_prefix(p.drop_first(), a, b);
    } else {
        assert(p + a =~= a);
        assert(p + b =~= b);
    }
}

/// In the picker, an application comes before each of its own actions.
pub proof fn lemma_application_before_its_actions(app: Entry, action: Entry)
    requires
        app.application is None,
        opt_view(action.application) == Some(app.name@),
    ensures
        lex_lt(entry_key(app), entry_key(action)),
{
    let p = shifted(app.name@);
    let ka = seq![0u32, 0u32] + shifted(app.name@);
    let kb = seq![0u32, 1u32] + shifted(action.name@);
    assert(entry_key(app) =~= p + ka);
    assert(entry_key(action) =~= p + kb);
    lemma_lex_common_prefix(p, ka, kb);
    assert(ka.drop_first() =~= seq![0u32] + shifted(app.name@));
    assert(kb.drop_first() =~= seq![1u32] + shifted(action.name@));
    assert(lex_lt(ka.drop_first(), kb.drop_first()));
    assert(lex_lt(ka, kb));
}

fn shifted_into(key: &mut Vec<u32>, s: &str)
    ensures
        final(key)@ == old(key)@ + shifted(s@),
{
    let c = chars_of(s);
    let ghost start = key@;
    let mut i: usize = 0;
    while i < c.len()
        invariant
            i <= c@.len(),
            c@ == s@,
            key@ == start + shifted(c@.subrange(0, i as int)),
        decreases c@.len() - i,
    {
        proof {
            assert(shifted(c@.subrange(0, i + 1)) =~= shifted(c@.subrange(0, i as int)).push(
                shift(c@[i as int]),
            ));
        }
        let v = c[i] as u32;
        key.push(
            if v < u32::MAX {
                v + 1
            } else {
                v
            },
        );
        i += 1;
    }
    proof {
        assert(c@.subrange(0, c@.len() as int) =~= c@);
    }
}

fn entry_key_of(e: &Entry) -> (k: Vec<u32>)
    ensures
        k@ == entry_key(*e),
{
    let mut k: Vec<u32> = Vec::new();
    match &e.application {
        Some(a) => shifted_into(&mut k, a.as_str()),
        None => shifted_into(&mut k, e.name.as_str()),
    }
    k.push(0);
    k.push(
        if e.application.is_some() {
            1
        } else {
            0
        },
    );
    shifted_into(&mut k, e.name.as_str());
    proof {
        assert(k@ =~= entry_key(*e));
    }
    k
}

fn clone_opt(o: &Option<String>) -> (r: Option<String>)
    ensures
        opt_view(r) == opt_view(*o),
{
    match o {
        Some(s) => Some(s.clone()),
        None => None,
    }
}

/// The picker's order: applications alphabetically, each followed by its own actions.
pub fn sort_entries(entries: &Vec<Entry>) -> (out: Vec<Entry>)
    ensures
        out@.len() == entries@.len(),
        exists|order: Seq<usize>|
            is_stable_lex_order(entry_keys(entries@), order) && forall|j: int|
                0 <= j < out@.len() ==> {
                    let e = #[trigger] entries@[order[j] as int];
                    &&& out@[j].name@ == e.name@
                    &&& opt_view(out@[j].application) == opt_view(e.application)
                    &&& out@[j].command@ == e.command@
                    &&& out@[j].haystack() == e.haystack()
                },
{
    let mut keys: Vec<Vec<u32>> = Vec::new();
    let mut i: usize = 0;
    while i < entries.len()
        invariant
            i <= entries@.len(),
            key_views(keys@) == entry_keys(entries@.subrange(0, i as int)),
        decreases entries@.len() - i,
    {
        let k = entry_key_of(&entries[i]);
        proof {
            assert(key_views(keys@.push(k)) =~= key_views(keys@).push(k@));
            assert(entry_keys(entries@.subrange(0, i + 1)) =~= entry_keys(entries@.subrange(0, i as int)).push(
                entry_key(entries@[i as int]),
            ));
        }
        keys.push(k);
        i += 1;
    }
    proof {
        assert(entries@.subrange(0, entries@.len() as int) =~= entries@);
    }
    let order = stable_lex_order(&keys);
    let mut out: Vec<Entry> = Vec::new();
    let mut j: usize = 0;
    while j < order.len()
        invariant
            j <= order@.len(),
            is_stable_lex_order(entry_keys(entries@), order@),
            key_views(keys@) == entry_keys(entries@),
            out@.len() == j,
            forall|q: int| 0 <= q < j ==> {
                let e = #[trigger] entries@[order@[q] as int];
                &&& out@[q].name@ == e.name@
                &&& opt_view(out@[q].application) == opt_view(e.application)
                &&& out@[q].command@ == e.command@
                &&& out@[q].haystack() == e.haystack()
            },
        decreases order@.len() - j,
    {
        let e = &entries[order[j]];
        let c = Entry {
            name: e.name.clone(),
            application: clone_opt(&e.application),
            command: e.command.clone(),
            haystack: e.haystack.clone(),
        };
        out.push(c);
        proof {
            assert forall|q: int| 0 <= q < j + 1 implies {
                let e = #[trigger] entries@[order@[q] as int];
                &&& out@[q].name@ == e.name@
                &&& opt_view(out@[q].application) == opt_view(e.application)
                &&& out@[q].command@ == e.command@
                &&& out@[q].haystack() == e.haystack()
            } by {
                if q < j {
                }
            }
        }
        j += 1;
    }
    out
}

/// Where the edited bindings are written. The application owns this file; Settings is
/// a second writer to it, which is why the key name is declared rather than assumed.
pub struct ConfigTarget {
    pub id: String,
    pub version: u64,
    pub key: String,
}

// ---------------------------------------------------------------- declarations

/// Versions of the declaration format this build understands.
pub const SUPPORTED: u16 = 1;

/// What an application says about the key bindings it handles itself: which actions
/// exist, what to call them and which combinations each ships with. `B` is a key
/// combination; this library only carries it.
pub struct Declaration<B> {
    pub schema: u16,
    pub config: ConfigTarget,
    pub groups: Vec<Group<B>>,
}

pub struct Group<B> {
    pub title: L10n,
    pub actions: Vec<Action<B>>,
}

pub struct Action<B> {
    /// The name the application spells in its own configuration.
    pub action: String,
    pub label: L10n,
    /// The combinations the application ships for this action.
    pub defaults: Vec<B>,
}

/// The actions of the groups, in the order the groups list them.
pub open spec fn all_actions<B>(groups: Seq<Group<B>>) -> Seq<Action<B>>
    decreases groups.len(),
{
    if groups.len() == 0 {
        seq![]
    } else {
        all_actions(groups.drop_last()) + groups.last().actions@
    }
}

pub open spec fn derefs<B>(v: Seq<&Action<B>>) -> Seq<Action<B>> {
    v.map_values(|a: &Action<B>| *a)
}

/// Every shipped combination with the name of its action, action by action.
pub open spec fn all_defaults<B>(actions: Seq<Action<B>>) -> Seq<(B, Seq<char>)>
    decreases actions.len(),
{
    if actions.len() == 0 {
        seq![]
    } else {
        all_defaults(actions.drop_last()) + actions.last().defaults@.map_values(
            |b: B| (b, actions.last().action@),
        )
    }
}

/// A declaration in a format newer than this build reads.
pub struct TooNew {
    pub version: u16,
}

/// Refuses a declaration in a newer format rather than half reading it.
pub fn accept<B>(d: Declaration<B>) -> (r: Result<Declaration<B>, TooNew>)
    ensures
        d.schema > SUPPORTED ==> (r matches Err(e) && e.version == d.schema),
        d.schema <= SUPPORTED ==> r == Ok::<Declaration<B>, TooNew>(d),
{
    if d.schema > SUPPORTED {
        Err(TooNew { version: d.schema })
    } else {
        Ok(d)
    }
}

impl<B> Declaration<B> {
    /// Every declared action, in the order the groups list them.
    pub fn actions(&self) -> (v: Vec<&Action<B>>)
        ensures
            derefs(v@) == all_actions(self.groups@),
    {
        let mut v: Vec<&Action<B>> = Vec::new();
        let mut i: usize = 0;
        while i < self.groups.len()
            invariant
                i <= self.groups@.len(),
                derefs(v@) == all_actions(self.groups@.subrange(0, i as int)),
            decreases self.groups@.len() - i,
        {
            let g = &self.groups[i];
            let ghost start = derefs(v@);
            let mut j: usize = 0;
            while j < g.actions.len()
                invariant
                    j <= g.actions@.len(),
                    derefs(v@) == start + g.actions@.subrange(0, j as int),
                decreases g.actions@.len() - j,
            {
                let ghost before = v@;
                v.push(&g.actions[j]);
                proof {
                    assert(derefs(v@) =~= derefs(before).push(g.actions@[j as int]));
                    assert(g.actions@.subrange(0, j + 1) =~= g.actions@.subrange(0, j as int).push(
                        g.actions@[j as int],
                    ));
                }
                j += 1;
            }
            proof {
                assert(g.actions@.subrange(0, g.actions@.len() as int) =~= g.actions@);
                assert(self.groups@.subrange(0, i + 1).drop_last() =~= self.groups@.subrange(0, i as int));
            }
            i += 1;
        }
        proof {
            assert(self.groups@.subrange(0, self.groups@.len() as int) =~= self.groups@);
        }
        v
    }

    /// The combinations the application ships, each with the action it triggers.
    pub fn defaults(&self) -> (v: Vec<(&B, ActionName)>)
        ensures
            v@.len() == all_defaults(all_actions(self.groups@)).len(),
            forall|k: int|
                0 <= k < v@.len() ==> *(#[trigger] v@[k]).0 == all_defaults(all_actions(self.groups@))[k].0
                    && v@[k].1.0@ == all_defaults(all_actions(self.groups@))[k].1,
    {
        let acts = self.actions();
        let ghost all = all_defaults(derefs(acts@));
        let mut v: Vec<(&B, ActionName)> = Vec::new();
        let mut i: usize = 0;
        while i < acts.len()
            invariant
                i <= acts@.len(),
                v@.len() == all_defaults(derefs(acts@.subrange(0, i as int))).len(),
                forall|k: int|
                    0 <= k < v@.len() ==> *(#[trigger] v@[k]).0 == all_defaults(derefs(acts@.subrange(0, i as int)))[k].0
                        && v@[k].1.0@ == all_defaults(derefs(acts@.subrange(0, i as int)))[k].1,
            decreases acts@.len() - i,
        {
            let a = acts[i];
            let ghost pre = all_defaults(derefs(acts@.subrange(0, i as int)));
            let ghost start = v@;
            proof {
                assert(derefs(acts@.subrange(0, i + 1)).drop_last() =~= derefs(acts@.subrange(0, i as int)));
                assert(derefs(acts@.subrange(0, i + 1)).last() == *a);
            }
            let mut j: usize = 0;
            while j < a.defaults.len()
                invariant
                    j <= a.defaults@.len(),
                    start.len() == pre.len(),
                    v@.len() == pre.len() + j,
                    forall|k: int| 0 <= k < start.len() ==> v@[k] == start[k],
                    forall|k: int|
                        0 <= k < start.len() ==> *(#[trigger] start[k]).0 == pre[k].0 && start[k].1.0@ == pre[k].1,
                    forall|k: int|
                        0 <= k < j ==> *(#[trigger] v@[pre.len() + k]).0 == a.defaults@[k] && v@[pre.len()
                            + k].1.0@ == a.action@,
                decreases a.defaults@.len() - j,
            {
                v.push((&a.defaults[j], ActionName(a.action.clone())));
                j += 1;
            }
            proof {
                let now = all_defaults(derefs(acts@.subrange(0, i + 1)));
                let add = a.defaults@.map_values(|b: B| (b, a.action@));
                assert(now == pre + add);
                assert forall|k: int| 0 <= k < v@.len() implies *(#[trigger] v@[k]).0 == now[k].0 && v@[k].1.0@
                    == now[k].1 by {
                    if k < pre.len() {
                        assert(v@[k] == start[k]);
                    } else {
                        let m = k - pre.len();
                        assert(v@[pre.len() + m] == v@[k]);
                    }
                }
            }
            i += 1;
        }
        proof {
            assert(acts@.subrange(0, acts@.len() as int) =~= acts@);
        }
        v
    }
}

} // verus!

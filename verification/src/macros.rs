//! Macro tables and macro flattening.
use vstd::prelude::*;
pub use crate::error::{MacroError, MacroFault};
use crate::text::{chars_of, string_of, string_of_range};

verus! {

/// A table from macro names to macro values, each name at most once.
pub struct MacroMap {
    entries: Vec<(String, String)>,
}

impl MacroMap {
    #[verifier::type_invariant]
    spec fn names_distinct(self) -> bool {
        forall|i: int, j: int|
            0 <= i < j < self.entries@.len() ==> #[trigger] self.entries@[i].0@
                != #[trigger] self.entries@[j].0@
    }

    spec fn has_name_at(self, name: Seq<char>, i: int) -> bool {
        0 <= i < self.entries@.len() && self.entries@[i].0@ == name
    }

    /// The names and values in the table.
    pub closed spec fn entries_view(self) -> Map<Seq<char>, Seq<char>> {
        Map::new(
            |k: Seq<char>| exists|i: int| self.has_name_at(k, i),
            |k: Seq<char>| self.entries@[choose|i: int| self.has_name_at(k, i)].1@,
        )
    }

    proof fn lemma_lookup(self, i: int)
        requires
            self.names_distinct(),
            0 <= i < self.entries@.len(),
        ensures
            self@.contains_key(self.entries@[i].0@),
            self@[self.entries@[i].0@] == self.entries@[i].1@,
    {
        let k = self.entries@[i].0@;
        assert(self.has_name_at(k, i));
        let j = choose|j: int| self.has_name_at(k, j);
        if j != i {
            if j < i {
                assert(self.entries@[j].0@ != self.entries@[i].0@);
            } else {
                assert(self.entries@[i].0@ != self.entries@[j].0@);
            }
        }
    }

    /// A table has finitely many names.
    pub proof fn lemma_names_finite(self)
        ensures
            self@.dom().finite(),
    {
        let keys = self.entries@.map_values(|e: (String, String)| e.0@);
        vstd::seq_lib::seq_to_set_is_finite(keys);
        assert forall|k: Seq<char>| #[trigger] self@.dom().contains(k) implies keys.to_set().contains(k) by {
            let i = choose|i: int| self.has_name_at(k, i);
            assert(keys[i] == k);
        }
        vstd::set_lib::lemma_len_subset(self@.dom(), keys.to_set());
    }

    /// Whether every `$` in every value of the table starts a reference.
    fn dollars_start_references_in_all(&self) -> (r: bool)
        ensures
            r == forall|k: Seq<char>| #[trigger] self@.contains_key(k) ==> dollars_start_references(self@[k]),
    {
        proof {
            use_type_invariant(self);
        }
        let mut i: usize = 0;
        while i < self.entries.len()
            invariant
                self.names_distinct(),
                i <= self.entries@.len(),
                forall|j: int| 0 <= j < i ==> dollars_start_references(#[trigger] self.entries@[j].1@),
            decreases self.entries@.len() - i,
        {
            let chars = chars_of(self.entries[i].1.as_str());
            if !check_dollars_start_references(&chars) {
                proof {
                    self.lemma_lookup(i as int);
                }
                return false;
            }
            i = i + 1;
        }
        proof {
            assert forall|k: Seq<char>| #[trigger] self@.contains_key(k) implies dollars_start_references(self@[k]) by {
                let j = choose|j: int| self.has_name_at(k, j);
                self.lemma_lookup(j);
            }
        }
        true
    }

    /// Whether no value of the table holds a `$`.
    fn no_dollar_in_all(&self) -> (r: bool)
        ensures
            r == forall|k: Seq<char>| #[trigger] self@.contains_key(k) ==> has_no_dollar(self@[k]),
    {
        proof {
            use_type_invariant(self);
        }
        let mut i: usize = 0;
        while i < self.entries.len()
            invariant
                self.names_distinct(),
                i <= self.entries@.len(),
                forall|j: int| 0 <= j < i ==> has_no_dollar(#[trigger] self.entries@[j].1@),
            decreases self.entries@.len() - i,
        {
            let chars = chars_of(self.entries[i].1.as_str());
            if !check_no_dollar(&chars) {
                proof {
                    self.lemma_lookup(i as int);
                }
                return false;
            }
            i = i + 1;
        }
        proof {
            assert forall|k: Seq<char>| #[trigger] self@.contains_key(k) implies has_no_dollar(self@[k]) by {
                let j = choose|j: int| self.has_name_at(k, j);
                self.lemma_lookup(j);
            }
        }
        true
    }

    /// An empty table.
    pub fn new() -> (m: Self)
        ensures
            m@ == Map::<Seq<char>, Seq<char>>::empty(),
    {
        let m = MacroMap { entries: Vec::new() };
        assert(m@ =~= Map::<Seq<char>, Seq<char>>::empty());
        m
    }

    /// The position of `name` in the table, if it is there.
    fn position(&self, name: &String) -> (r: Option<usize>)
        ensures
            match r {
                Some(i) => self.has_name_at(name@, i as int),
                None => forall|i: int| 0 <= i < self.entries@.len() ==> self.entries@[i].0@ != name@,
            },
    {
        let mut i: usize = 0;
        while i < self.entries.len()
            invariant
                i <= self.entries@.len(),
                forall|k: int| 0 <= k < i ==> self.entries@[k].0@ != name@,
            decreases self.entries@.len() - i,
        {
            if self.entries[i].0 == *name {
                return Some(i);
            }
            i = i + 1;
        }
        None
    }

    /// Sets the value of `name`, adding the name if it is new.
    pub fn insert(&mut self, name: String, value: String)
        ensures
            final(self)@ == old(self)@.insert(name@, value@),
    {
        proof {
            use_type_invariant(&*self);
        }
        let ghost old_self = *self;
        let ghost k = name@;
        let ghost v = value@;
        let found = self.position(&name);
        let mut entries: Vec<(String, String)> = Vec::new();
        std::mem::swap(&mut entries, &mut self.entries);
        match found {
            Some(i) => {
                entries.set(i, (name, value));
                proof {
                    assert forall|a: int, b: int|
                        0 <= a < b < entries@.len() implies #[trigger] entries@[a].0@
                        != #[trigger] entries@[b].0@ by {
                        assert(old_self.entries@[a].0@ != old_self.entries@[b].0@);
                    }
                }
            },
            None => {
                entries.push((name, value));
                proof {
                    assert forall|a: int, b: int|
                        0 <= a < b < entries@.len() implies #[trigger] entries@[a].0@
                        != #[trigger] entries@[b].0@ by {
                        if b < old_self.entries@.len() {
                            assert(old_self.entries@[a].0@ != old_self.entries@[b].0@);
                        }
                    }
                }
            },
        }
        self.entries = entries;
        proof {
            use_type_invariant(&*self);
            assert forall|q: Seq<char>| #[trigger] self@.contains_key(q) <==> old_self@.insert(k, v).contains_key(q) by {
                if self@.contains_key(q) {
                    let j = choose|j: int| self.has_name_at(q, j);
                    if q != k {
                        assert(old_self.has_name_at(q, j));
                    }
                }
                if old_self@.contains_key(q) && q != k {
                    let j = choose|j: int| old_self.has_name_at(q, j);
                    assert(self.has_name_at(q, j));
                }
                if q == k {
                    if self.entries@.len() > old_self.entries@.len() {
                        assert(self.has_name_at(q, old_self.entries@.len() as int));
                    } else {
                        let j = choose|j: int| old_self.has_name_at(q, j);
                        assert(self.has_name_at(q, j));
                    }
                }
            }
            assert forall|q: Seq<char>| #[trigger] self@.contains_key(q) implies self@[q] == old_self@.insert(k, v)[q] by {
                let j = choose|j: int| self.has_name_at(q, j);
                self.lemma_lookup(j);
                if q != k {
                    assert(old_self.has_name_at(q, j));
                    old_self.lemma_lookup(j);
                }
            }
            assert(self@ =~= old_self@.insert(k, v));
        }
    }

    /// The stored name and value of `name`, if the table has it.
    pub fn get_key_value(&self, name: &str) -> (r: Option<(&String, &String)>)
        ensures
            match r {
                Some((k, v)) => self@.contains_key(name@) && k@ == name@ && v@ == self@[name@],
                None => !self@.contains_key(name@),
            },
    {
        proof {
            use_type_invariant(self);
        }
        let key = name.to_owned();
        match self.position(&key) {
            Some(i) => {
                proof {
                    self.lemma_lookup(i as int);
                }
                Some((&self.entries[i].0, &self.entries[i].1))
            },
            None => {
                proof {
                    if self@.contains_key(name@) {
                        let j = choose|j: int| self.has_name_at(name@, j);
                        assert(self.entries@[j].0@ == name@);
                    }
                }
                None
            },
        }
    }

    /// The value of `name`, if the table has it.
    pub fn get(&self, name: &str) -> (r: Option<&String>)
        ensures
            match r {
                Some(v) => self@.contains_key(name@) && v@ == self@[name@],
                None => !self@.contains_key(name@),
            },
    {
        match self.get_key_value(name) {
            Some((_, v)) => Some(v),
            None => None,
        }
    }

    /// Whether the table has `name`.
    pub fn contains_key(&self, name: &str) -> (r: bool)
        ensures
            r == self@.contains_key(name@),
    {
        self.get_key_value(name).is_some()
    }
}

impl View for MacroMap {
    type V = Map<Seq<char>, Seq<char>>;

    open spec fn view(&self) -> Map<Seq<char>, Seq<char>> {
        self.entries_view()
    }
}

/// A character that may stand in a macro's name.
pub open spec fn is_name_char(c: char) -> bool {
    ('a' <= c && c <= 'z') || ('A' <= c && c <= 'Z') || ('0' <= c && c <= '9') || c == '_' || c
        == '-'
}

/// The number of name characters in `s` from index `j` on, up to the first other character.
pub open spec fn name_run(s: Seq<char>, j: int) -> nat
    decreases s.len() - j,
{
    if 0 <= j < s.len() && is_name_char(s[j]) {
        1 + name_run(s, j + 1)
    } else {
        0
    }
}

/// Whether a macro reference `${name}` starts at index `i` of `s`; the name is not empty.
pub open spec fn reference_at(s: Seq<char>, i: int) -> bool {
    &&& 0 <= i
    &&& i + 1 < s.len()
    &&& s[i] == '$'
    &&& s[i + 1] == '{'
    &&& name_run(s, i + 2) > 0
    &&& i + 2 + name_run(s, i + 2) < s.len()
    &&& s[i + 2 + name_run(s, i + 2)] == '}'
}

/// The index just past the reference that starts at `i`.
pub open spec fn reference_end(s: Seq<char>, i: int) -> int {
    i + 3 + name_run(s, i + 2)
}

/// The name in the reference that starts at `i`.
pub open spec fn reference_name(s: Seq<char>, i: int) -> Seq<char> {
    s.subrange(i + 2, i + 2 + name_run(s, i + 2))
}

/// The start of the first reference in `s` at or after index `i`.
pub open spec fn first_reference_from(s: Seq<char>, i: int) -> Option<int>
    decreases s.len() - i,
{
    if i < 0 || i >= s.len() {
        None
    } else if reference_at(s, i) {
        Some(i)
    } else {
        first_reference_from(s, i + 1)
    }
}

/// The start of the first (leftmost) reference in `s`.
pub open spec fn first_reference(s: Seq<char>) -> Option<int> {
    first_reference_from(s, 0)
}

/// `s` with its part `[from, to)` replaced by `by`.
pub open spec fn splice(s: Seq<char>, from: int, to: int, by: Seq<char>) -> Seq<char> {
    s.subrange(0, from) + by + s.subrange(to, s.len() as int)
}

/// How a flattening ends: not within the steps allowed, or with a result and the final
/// history and table of flattened macros.
pub enum Flattening {
    OutOfSteps,
    Done { result: Result<(), MacroFault>, history: Set<Seq<char>>, flat: Map<Seq<char>, Seq<char>> },
}

/// Flattening the macro `name` within `steps` steps: a name already flattened is done; an
/// unknown name is `NotFound`; a name already in the history is `InfiniteLoop`; else the name
/// joins the history and its value is expanded.
pub open spec fn flatten_run(
    macros: Map<Seq<char>, Seq<char>>,
    name: Seq<char>,
    history: Set<Seq<char>>,
    flat: Map<Seq<char>, Seq<char>>,
    steps: nat,
) -> Flattening
    decreases steps,
{
    if steps == 0 {
        Flattening::OutOfSteps
    } else if flat.contains_key(name) {
        Flattening::Done { result: Ok(()), history, flat }
    } else if !macros.contains_key(name) {
        Flattening::Done { result: Err(MacroFault::NotFound(name)), history, flat }
    } else if history.contains(name) {
        Flattening::Done { result: Err(MacroFault::InfiniteLoop(name)), history, flat }
    } else {
        expand_run(macros, name, macros[name], history.insert(name), flat, (steps - 1) as nat)
    }
}

/// Expanding `value`, the partly flattened value of macro `name`, within `steps` steps: the
/// leftmost reference is replaced by the flattened value of the macro it names (flattened
/// first where needed), until no reference is left; then `name` gets the value in `flat`.
pub open spec fn expand_run(
    macros: Map<Seq<char>, Seq<char>>,
    name: Seq<char>,
    value: Seq<char>,
    history: Set<Seq<char>>,
    flat: Map<Seq<char>, Seq<char>>,
    steps: nat,
) -> Flattening
    decreases steps,
{
    if steps == 0 {
        Flattening::OutOfSteps
    } else {
        match first_reference(value) {
            None => Flattening::Done { result: Ok(()), history, flat: flat.insert(name, value) },
            Some(start) => {
                let end = reference_end(value, start);
                let sub = reference_name(value, start);
                let rest = (steps - 1) as nat;
                if flat.contains_key(sub) {
                    expand_run(macros, name, splice(value, start, end, flat[sub]), history, flat, rest)
                } else {
                    match flatten_run(macros, sub, history, flat, rest) {
                        Flattening::OutOfSteps => Flattening::OutOfSteps,
                        Flattening::Done { result, history: h, flat: f } => {
                            if result is Err {
                                Flattening::Done { result, history: h, flat: f }
                            } else if f.contains_key(sub) {
                                expand_run(macros, name, splice(value, start, end, f[sub]), h, f, rest)
                            } else {
                                Flattening::Done { result: Err(MacroFault::NotFound(sub)), history: h, flat: f }
                            }
                        },
                    }
                }
            },
        }
    }
}

/// Whether flattening `name` ends (for some macro sets it grows a value forever).
pub open spec fn flattening_ends(
    macros: Map<Seq<char>, Seq<char>>,
    name: Seq<char>,
    history: Set<Seq<char>>,
    flat: Map<Seq<char>, Seq<char>>,
) -> bool {
    exists|steps: nat| flatten_run(macros, name, history, flat, steps) is Done
}

/// How flattening `name` ends, where it does.
pub open spec fn flattening(
    macros: Map<Seq<char>, Seq<char>>,
    name: Seq<char>,
    history: Set<Seq<char>>,
    flat: Map<Seq<char>, Seq<char>>,
) -> Flattening {
    flatten_run(macros, name, history, flat, choose|steps: nat| flatten_run(macros, name, history, flat, steps) is Done)
}

/// The model of a flattening result.
pub open spec fn outcome_of(r: Result<(), MacroError>) -> Result<(), MacroFault> {
    match r {
        Ok(()) => Ok(()),
        Err(e) => Err(e@),
    }
}

/// The number of name characters in `s` from `j` on.
fn scan_name(s: &Vec<char>, j: usize) -> (k: usize)
    requires
        j <= s@.len(),
    ensures
        k == j + name_run(s@, j as int),
        k <= s@.len(),
{
    let mut k = j;
    while k < s.len() && is_name(s[k])
        invariant
            j <= k <= s@.len(),
            name_run(s@, j as int) == (k - j) + name_run(s@, k as int),
        decreases s@.len() - k,
    {
        k = k + 1;
    }
    k
}

fn is_name(c: char) -> (r: bool)
    ensures
        r == is_name_char(c),
{
    ('a' <= c && c <= 'z') || ('A' <= c && c <= 'Z') || ('0' <= c && c <= '9') || c == '_' || c
        == '-'
}

/// The start and end of the leftmost reference in `s`.
fn find_reference(s: &Vec<char>) -> (r: Option<(usize, usize)>)
    ensures
        match r {
            Some((start, end)) => first_reference(s@) == Some(start as int) && end == reference_end(s@, start as int) && end <= s@.len(),
            None => first_reference(s@) is None,
        },
{
    let n = s.len();
    let mut i: usize = 0;
    while i < n
        invariant
            n == s@.len(),
            i <= n,
            first_reference(s@) == first_reference_from(s@, i as int),
        decreases n - i,
    {
        if i + 1 < n && s[i] == '$' && s[i + 1] == '{' {
            let k = scan_name(s, i + 2);
            if k > i + 2 && k < n && s[k] == '}' {
                return Some((i, k + 1));
            }
        }
        i = i + 1;
    }
    None
}

/// `s[..from] + by + s[to..]`.
fn splice_chars(s: &Vec<char>, from: usize, to: usize, by: &Vec<char>) -> (r: Vec<char>)
    requires
        from <= to <= s@.len(),
    ensures
        r@ == splice(s@, from as int, to as int, by@),
{
    let mut r: Vec<char> = Vec::new();
    let mut i: usize = 0;
    while i < from
        invariant
            from <= to <= s@.len(),
            i <= from,
            r@ == s@.subrange(0, i as int),
        decreases from - i,
    {
        r.push(s[i]);
        i = i + 1;
        assert(r@ =~= s@.subrange(0, i as int));
    }
    let mut j: usize = 0;
    while j < by.len()
        invariant
            from <= to <= s@.len(),
            j <= by@.len(),
            r@ == s@.subrange(0, from as int) + by@.subrange(0, j as int),
        decreases by@.len() - j,
    {
        r.push(by[j]);
        j = j + 1;
        assert(r@ =~= s@.subrange(0, from as int) + by@.subrange(0, j as int));
    }
    let mut k: usize = to;
    while k < s.len()
        invariant
            from <= to <= k <= s@.len(),
            r@ == s@.subrange(0, from as int) + by@ + s@.subrange(to as int, k as int),
        decreases s@.len() - k,
    {
        r.push(s[k]);
        k = k + 1;
        assert(r@ =~= s@.subrange(0, from as int) + by@ + s@.subrange(to as int, k as int));
    }
    assert(by@.subrange(0, by@.len() as int) =~= by@);
    r
}

fn flatten_steps(
    macro_name: &str,
    history: &mut MacroNames,
    macros: &MacroMap,
    flat_macros: &mut MacroMap,
    Ghost(steps): Ghost<nat>,
) -> (r: Result<(), MacroError>)
    requires
        flatten_run(macros@, macro_name@, old(history)@, old(flat_macros)@, steps) is Done,
    ensures
        flatten_run(macros@, macro_name@, old(history)@, old(flat_macros)@, steps)
            == (Flattening::Done { result: outcome_of(r), history: final(history)@, flat: final(flat_macros)@ }),
    decreases steps,
{
    let ghost outcome = flatten_run(macros@, macro_name@, history@, flat_macros@, steps);
    if flat_macros.contains_key(macro_name) {
        return Ok(());
    }
    let (name, raw) = match macros.get_key_value(macro_name) {
        Some(kv) => kv,
        None => {
            return Err(MacroError::NotFound(macro_name.to_owned()));
        },
    };
    if history.contains(name.as_str()) {
        return Err(MacroError::InfiniteLoop(name.clone()));
    }
    history.insert(name.clone());
    let mut value = chars_of(raw.as_str());
    let ghost mut left: nat = (steps - 1) as nat;
    loop
        invariant
            outcome is Done,
            outcome == flatten_run(macros@, macro_name@, old(history)@, old(flat_macros)@, steps),
            name@ == macro_name@,
            left < steps,
            expand_run(macros@, macro_name@, value@, history@, flat_macros@, left) == outcome,
        ensures
            first_reference(value@) is None,
            expand_run(macros@, macro_name@, value@, history@, flat_macros@, left) == outcome,
            outcome == flatten_run(macros@, macro_name@, old(history)@, old(flat_macros)@, steps),
            name@ == macro_name@,
            left > 0,
        decreases left,
    {
        match find_reference(&value) {
            None => {
                break;
            },
            Some((start, end)) => {
                let sub = string_of_range(&value, start + 2, end - 1);
                assert(sub@ == reference_name(value@, start as int));
                if !flat_macros.contains_key(sub.as_str()) {
                    let res = flatten_steps(sub.as_str(), history, macros, flat_macros, Ghost((left - 1) as nat));
                    if res.is_err() {
                        return res;
                    }
                }
                match flat_macros.get(sub.as_str()) {
                    Some(sub_value) => {
                        let sub_chars = chars_of(sub_value.as_str());
                        value = splice_chars(&value, start, end, &sub_chars);
                    },
                    None => {
                        return Err(MacroError::NotFound(sub));
                    },
                }
                proof {
                    left = (left - 1) as nat;
                }
            },
        }
    }
    flat_macros.insert(name.clone(), string_of(&value));
    Ok(())
}

/// Flattens the macro `macro_name` of `macros` into `flat_macros`.
///
/// Every reference `${name}` in the macro's value is replaced, leftmost first, by the
/// flattened value of the macro it names, until none is left; macros met on the way are
/// flattened first and kept in `flat_macros` too. `history` holds the names whose
/// flattening has begun: meeting one of them again, still unflattened, is an
/// `InfiniteLoop`; a name that `macros` lacks is `NotFound`.
pub fn flatten_macro(
    macro_name: &str,
    history: &mut MacroNames,
    macros: &MacroMap,
    flat_macros: &mut MacroMap,
) -> (r: Result<(), MacroError>)
    requires
        flattening_ends(macros@, macro_name@, old(history)@, old(flat_macros)@),
    ensures
        flattening(macros@, macro_name@, old(history)@, old(flat_macros)@)
            == (Flattening::Done { result: outcome_of(r), history: final(history)@, flat: final(flat_macros)@ }),
{
    let ghost steps = choose|steps: nat| flatten_run(macros@, macro_name@, history@, flat_macros@, steps) is Done;
    flatten_steps(macro_name, history, macros, flat_macros, Ghost(steps))
}

/// What every flattening that ends keeps, whether it succeeds or fails: the history and the
/// table of flattened macros only grow, the entries flattened before keep their values, and
/// the entries flattened on the way stay (on failure too); each macro flattened on the way is
/// a macro of `macros`, was not in the history before, is in it after, and its flattened
/// value holds no reference; on success `name` is flattened; `NotFound` names a name that is
/// neither a macro nor flattened; `InfiniteLoop` names a macro whose flattening had begun
/// (it is in the history) and not ended (it is not flattened), so the macro was met again
/// while it was being flattened.
pub open spec fn flattening_keeps(
    macros: Map<Seq<char>, Seq<char>>,
    name: Seq<char>,
    history: Set<Seq<char>>,
    flat: Map<Seq<char>, Seq<char>>,
    outcome: Flattening,
) -> bool {
    match outcome {
        Flattening::OutOfSteps => true,
        Flattening::Done { result, history: h, flat: f } => {
            &&& history.subset_of(h)
            &&& flat.submap_of(f)
            &&& forall|k: Seq<char>| #[trigger] f.contains_key(k) && !flat.contains_key(k) ==> {
                &&& macros.contains_key(k)
                &&& !history.contains(k)
                &&& h.contains(k)
                &&& first_reference(f[k]) is None
            }
            &&& result is Ok ==> f.contains_key(name)
            &&& result matches Err(MacroFault::NotFound(k)) ==> !macros.contains_key(k) && !f.contains_key(k)
            &&& result matches Err(MacroFault::InfiniteLoop(k)) ==> macros.contains_key(k) && h.contains(k)
                && !f.contains_key(k)
        },
    }
}

/// What an expansion of the macro `name` keeps: as [`flattening_keeps`], but `name` itself is
/// in the history already.
pub open spec fn expansion_keeps(
    macros: Map<Seq<char>, Seq<char>>,
    name: Seq<char>,
    history: Set<Seq<char>>,
    flat: Map<Seq<char>, Seq<char>>,
    outcome: Flattening,
) -> bool {
    match outcome {
        Flattening::OutOfSteps => true,
        Flattening::Done { result, history: h, flat: f } => {
            &&& history.subset_of(h)
            &&& flat.submap_of(f)
            &&& forall|k: Seq<char>| #[trigger] f.contains_key(k) && !flat.contains_key(k) ==> {
                &&& macros.contains_key(k)
                &&& k == name || !history.contains(k)
                &&& h.contains(k)
                &&& first_reference(f[k]) is None
            }
            &&& result is Ok ==> f.contains_key(name)
            &&& result matches Err(MacroFault::NotFound(k)) ==> !macros.contains_key(k) && !f.contains_key(k)
            &&& result matches Err(MacroFault::InfiniteLoop(k)) ==> macros.contains_key(k) && h.contains(k)
                && !f.contains_key(k)
        },
    }
}

proof fn lemma_flatten_run_keeps(
    macros: Map<Seq<char>, Seq<char>>,
    name: Seq<char>,
    history: Set<Seq<char>>,
    flat: Map<Seq<char>, Seq<char>>,
    steps: nat,
)
    ensures
        flattening_keeps(macros, name, history, flat, flatten_run(macros, name, history, flat, steps)),
    decreases steps, 1nat,
{
    if steps > 0 && !flat.contains_key(name) && macros.contains_key(name) && !history.contains(name) {
        let h0 = history.insert(name);
        lemma_expand_run_keeps(macros, name, macros[name], h0, flat, (steps - 1) as nat);
        let outcome = expand_run(macros, name, macros[name], h0, flat, (steps - 1) as nat);
        if let Flattening::Done { result, history: h, flat: f } = outcome {
            assert forall|k: Seq<char>| #[trigger] f.contains_key(k) && !flat.contains_key(k) implies !history.contains(k) by {
                assert(k == name || !h0.contains(k));
            }
        }
    }
}

proof fn lemma_expand_run_keeps(
    macros: Map<Seq<char>, Seq<char>>,
    name: Seq<char>,
    value: Seq<char>,
    history: Set<Seq<char>>,
    flat: Map<Seq<char>, Seq<char>>,
    steps: nat,
)
    requires
        history.contains(name),
        !flat.contains_key(name),
        macros.contains_key(name),
    ensures
        expansion_keeps(macros, name, history, flat, expand_run(macros, name, value, history, flat, steps)),
    decreases steps, 0nat,
{
    if steps > 0 {
        if let Some(start) = first_reference(value) {
            let end = reference_end(value, start);
            let sub = reference_name(value, start);
            let rest = (steps - 1) as nat;
            if flat.contains_key(sub) {
                lemma_expand_run_keeps(macros, name, splice(value, start, end, flat[sub]), history, flat, rest);
            } else {
                lemma_flatten_run_keeps(macros, sub, history, flat, rest);
                if let Flattening::Done { result: r1, history: h1, flat: f1 } = flatten_run(macros, sub, history, flat, rest) {
                    assert(!f1.contains_key(name));
                    if r1 is Ok && f1.contains_key(sub) {
                        let v1 = splice(value, start, end, f1[sub]);
                        lemma_expand_run_keeps(macros, name, v1, h1, f1, rest);
                        if let Flattening::Done { result: r2, history: h2, flat: f2 } = expand_run(macros, name, v1, h1, f1, rest) {
                            assert forall|k: Seq<char>| #[trigger] f2.contains_key(k) && !flat.contains_key(k) implies {
                                &&& macros.contains_key(k)
                                &&& !history.contains(k) || k == name
                                &&& h2.contains(k)
                                &&& first_reference(f2[k]) is None
                            } by {
                                if f1.contains_key(k) {
                                    assert(f1[k] == f2[k]);
                                }
                            }
                            assert(flat.submap_of(f2)) by {
                                assert forall|k: Seq<char>| #[trigger] flat.contains_key(k) implies f2.contains_key(k) && f2[k] == flat[k] by {
                                    let in1 = f1.dom().contains(k);
                                    let in2 = f2.dom().contains(k);
                                    assert(f1.contains_key(k) && f1[k] == flat[k]);
                                }
                            }
                        }
                    }
                }
            }
        } else {
            let f = flat.insert(name, value);
            assert(flat.submap_of(f));
        }
    }
}

/// Law: a flattening that ends, whether it succeeds or fails, only adds to the history and to
/// the table of flattened macros, and keeps the entries that were there and the ones it added
/// on the way; what it adds to the table are macros of `macros` that were not in the history
/// before, whose flattened values hold no reference; on success the macro itself is in the
/// table; an `InfiniteLoop` names a macro met again while it was being flattened, and a
/// `NotFound` a name that is neither a macro nor flattened.
pub proof fn law_flattening_keeps(
    macros: Map<Seq<char>, Seq<char>>,
    name: Seq<char>,
    history: Set<Seq<char>>,
    flat: Map<Seq<char>, Seq<char>>,
)
    requires
        flattening_ends(macros, name, history, flat),
    ensures
        flattening_keeps(macros, name, history, flat, flattening(macros, name, history, flat)),
{
    let steps = choose|steps: nat| flatten_run(macros, name, history, flat, steps) is Done;
    lemma_flatten_run_keeps(macros, name, history, flat, steps);
}

/// Law: a macro that is flattened already is left as it is.
pub proof fn law_flattened_macro_kept(
    macros: Map<Seq<char>, Seq<char>>,
    name: Seq<char>,
    history: Set<Seq<char>>,
    flat: Map<Seq<char>, Seq<char>>,
)
    requires
        flat.contains_key(name),
    ensures
        flattening_ends(macros, name, history, flat),
        flattening(macros, name, history, flat) == (Flattening::Done { result: Ok(()), history, flat }),
{
    assert(flatten_run(macros, name, history, flat, 1) is Done);
}

/// Law: flattening a name that is neither flattened nor a macro fails with `NotFound` of it
/// and changes nothing.
pub proof fn law_unknown_macro(
    macros: Map<Seq<char>, Seq<char>>,
    name: Seq<char>,
    history: Set<Seq<char>>,
    flat: Map<Seq<char>, Seq<char>>,
)
    requires
        !flat.contains_key(name),
        !macros.contains_key(name),
    ensures
        flattening_ends(macros, name, history, flat),
        flattening(macros, name, history, flat)
            == (Flattening::Done { result: Err(MacroFault::NotFound(name)), history, flat }),
{
    assert(flatten_run(macros, name, history, flat, 1) is Done);
}

/// Law: flattening a macro whose flattening has begun and not ended fails with
/// `InfiniteLoop` of it and changes nothing.
pub proof fn law_macro_in_history(
    macros: Map<Seq<char>, Seq<char>>,
    name: Seq<char>,
    history: Set<Seq<char>>,
    flat: Map<Seq<char>, Seq<char>>,
)
    requires
        !flat.contains_key(name),
        macros.contains_key(name),
        history.contains(name),
    ensures
        flattening_ends(macros, name, history, flat),
        flattening(macros, name, history, flat)
            == (Flattening::Done { result: Err(MacroFault::InfiniteLoop(name)), history, flat }),
{
    assert(flatten_run(macros, name, history, flat, 1) is Done);
}

/// Law: a macro without references flattens to its own value.
pub proof fn law_macro_without_references(
    macros: Map<Seq<char>, Seq<char>>,
    name: Seq<char>,
    history: Set<Seq<char>>,
    flat: Map<Seq<char>, Seq<char>>,
)
    requires
        !flat.contains_key(name),
        macros.contains_key(name),
        !history.contains(name),
        first_reference(macros[name]) is None,
    ensures
        flattening_ends(macros, name, history, flat),
        flattening(macros, name, history, flat) == (Flattening::Done {
            result: Ok(()),
            history: history.insert(name),
            flat: flat.insert(name, macros[name]),
        }),
{
    assert(flatten_run(macros, name, history, flat, 2) is Done);
}

/// Law: a macro whose first reference names the macro itself is an infinite loop; only its
/// name joins the history.
pub proof fn law_macro_referring_to_itself(
    macros: Map<Seq<char>, Seq<char>>,
    name: Seq<char>,
    history: Set<Seq<char>>,
    flat: Map<Seq<char>, Seq<char>>,
)
    requires
        !flat.contains_key(name),
        macros.contains_key(name),
        !history.contains(name),
        first_reference(macros[name]) matches Some(start) && reference_name(macros[name], start) == name,
    ensures
        flattening_ends(macros, name, history, flat),
        flattening(macros, name, history, flat) == (Flattening::Done {
            result: Err(MacroFault::InfiniteLoop(name)),
            history: history.insert(name),
            flat,
        }),
{
    assert(flatten_run(macros, name, history.insert(name), flat, 1) is Done);
    assert(flatten_run(macros, name, history, flat, 3) is Done);
    let s = choose|steps: nat| flatten_run(macros, name, history, flat, steps) is Done;
    assert(flatten_run(macros, name, history, flat, s) is Done);
    let h1 = history.insert(name);
    assert(flatten_run(macros, name, history, flat, s) == expand_run(macros, name, macros[name], h1, flat, (s - 1) as nat));
    assert(s >= 2);
    assert(flatten_run(macros, name, h1, flat, (s - 2) as nat) is Done);
}

proof fn lemma_flatten_run_more_steps(
    macros: Map<Seq<char>, Seq<char>>,
    name: Seq<char>,
    history: Set<Seq<char>>,
    flat: Map<Seq<char>, Seq<char>>,
    steps: nat,
)
    requires
        flatten_run(macros, name, history, flat, steps) is Done,
    ensures
        flatten_run(macros, name, history, flat, steps + 1) == flatten_run(macros, name, history, flat, steps),
    decreases steps, 1nat,
{
    if !flat.contains_key(name) && macros.contains_key(name) && !history.contains(name) {
        lemma_expand_run_more_steps(macros, name, macros[name], history.insert(name), flat, (steps - 1) as nat);
    }
}

proof fn lemma_expand_run_more_steps(
    macros: Map<Seq<char>, Seq<char>>,
    name: Seq<char>,
    value: Seq<char>,
    history: Set<Seq<char>>,
    flat: Map<Seq<char>, Seq<char>>,
    steps: nat,
)
    requires
        expand_run(macros, name, value, history, flat, steps) is Done,
    ensures
        expand_run(macros, name, value, history, flat, steps + 1) == expand_run(macros, name, value, history, flat, steps),
    decreases steps, 0nat,
{
    if let Some(start) = first_reference(value) {
        let end = reference_end(value, start);
        let sub = reference_name(value, start);
        let rest = (steps - 1) as nat;
        if flat.contains_key(sub) {
            lemma_expand_run_more_steps(macros, name, splice(value, start, end, flat[sub]), history, flat, rest);
        } else {
            lemma_flatten_run_more_steps(macros, sub, history, flat, rest);
            if let Flattening::Done { result, history: h, flat: f } = flatten_run(macros, sub, history, flat, rest) {
                if result is Ok && f.contains_key(sub) {
                    lemma_expand_run_more_steps(macros, name, splice(value, start, end, f[sub]), h, f, rest);
                }
            }
        }
    }
}

proof fn lemma_flatten_run_steps_agree(
    macros: Map<Seq<char>, Seq<char>>,
    name: Seq<char>,
    history: Set<Seq<char>>,
    flat: Map<Seq<char>, Seq<char>>,
    steps: nat,
    more: nat,
)
    requires
        flatten_run(macros, name, history, flat, steps) is Done,
        steps <= more,
    ensures
        flatten_run(macros, name, history, flat, more) == flatten_run(macros, name, history, flat, steps),
    decreases more - steps,
{
    if steps < more {
        lemma_flatten_run_more_steps(macros, name, history, flat, steps);
        lemma_flatten_run_steps_agree(macros, name, history, flat, steps + 1, more);
    }
}

/// Law: flattening is deterministic: every number of steps within which it ends gives the
/// same outcome, [`flattening`].
pub proof fn law_flattening_unique(
    macros: Map<Seq<char>, Seq<char>>,
    name: Seq<char>,
    history: Set<Seq<char>>,
    flat: Map<Seq<char>, Seq<char>>,
    steps: nat,
)
    requires
        flatten_run(macros, name, history, flat, steps) is Done,
    ensures
        flattening_ends(macros, name, history, flat),
        flattening(macros, name, history, flat) == flatten_run(macros, name, history, flat, steps),
{
    let chosen = choose|s: nat| flatten_run(macros, name, history, flat, s) is Done;
    if chosen <= steps {
        lemma_flatten_run_steps_agree(macros, name, history, flat, chosen, steps);
    } else {
        lemma_flatten_run_steps_agree(macros, name, history, flat, steps, chosen);
    }
}

/// Every `$` in `s` starts a reference.
pub open spec fn dollars_start_references(s: Seq<char>) -> bool {
    forall|i: int| 0 <= i < s.len() && #[trigger] s[i] == '$' ==> reference_at(s, i)
}

/// `s` holds no `$`.
pub open spec fn has_no_dollar(s: Seq<char>) -> bool {
    forall|i: int| 0 <= i < s.len() ==> #[trigger] s[i] != '$'
}

spec fn dollar_count(s: Seq<char>) -> nat
    decreases s.len(),
{
    if s.len() == 0 {
        0
    } else {
        (if s[0] == '$' { 1nat } else { 0nat }) + dollar_count(s.skip(1))
    }
}

proof fn lemma_dollar_count_concat(a: Seq<char>, b: Seq<char>)
    ensures
        dollar_count(a + b) == dollar_count(a) + dollar_count(b),
    decreases a.len(),
{
    if a.len() == 0 {
        assert(a + b =~= b);
    } else {
        lemma_dollar_count_concat(a.skip(1), b);
        assert((a + b).skip(1) =~= a.skip(1) + b);
    }
}

proof fn lemma_dollar_count_none(a: Seq<char>)
    requires
        has_no_dollar(a),
    ensures
        dollar_count(a) == 0,
    decreases a.len(),
{
    if a.len() > 0 {
        assert(a[0] != '$');
        assert forall|i: int| 0 <= i < a.skip(1).len() implies #[trigger] a.skip(1)[i] != '$' by {
            assert(a[i + 1] != '$');
        }
        lemma_dollar_count_none(a.skip(1));
    }
}

proof fn lemma_name_run_chars(s: Seq<char>, j: int)
    requires
        0 <= j,
    ensures
        j + name_run(s, j) <= s.len() || name_run(s, j) == 0,
        forall|k: int| j <= k < j + name_run(s, j) ==> is_name_char(#[trigger] s[k]),
    decreases s.len() - j,
{
    if 0 <= j < s.len() && is_name_char(s[j]) {
        lemma_name_run_chars(s, j + 1);
    }
}

proof fn lemma_name_run_suffix(a: Seq<char>, r: Seq<char>, j: int)
    requires
        0 <= j,
    ensures
        name_run(a + r, a.len() + j) == name_run(r, j),
    decreases r.len() - j,
{
    if j < r.len() {
        lemma_name_run_suffix(a, r, j + 1);
        assert((a + r)[a.len() + j] == r[j]);
    }
}

proof fn lemma_reference_at_suffix(a: Seq<char>, r: Seq<char>, j: int)
    requires
        0 <= j,
    ensures
        reference_at(a + r, a.len() + j) == reference_at(r, j),
{
    lemma_name_run_suffix(a, r, j + 2);
    let n = name_run(r, j + 2);
    if j + 1 < r.len() {
        assert((a + r)[a.len() + j] == r[j]);
        assert((a + r)[a.len() + j + 1] == r[j + 1]);
    }
    if j + 2 + n < r.len() {
        assert((a + r)[a.len() + j + 2 + n] == r[j + 2 + n]);
    }
}

proof fn lemma_first_reference_least(s: Seq<char>, k: int, start: int)
    requires
        0 <= k,
        first_reference_from(s, k) == Some(start),
    ensures
        k <= start < s.len(),
        reference_at(s, start),
        forall|i: int| k <= i < start ==> !reference_at(s, i),
    decreases s.len() - k,
{
    if !reference_at(s, k) {
        lemma_first_reference_least(s, k + 1, start);
    }
}

proof fn lemma_no_first_reference(s: Seq<char>, k: int)
    requires
        0 <= k,
        first_reference_from(s, k) is None,
    ensures
        forall|i: int| k <= i < s.len() ==> !reference_at(s, i),
    decreases s.len() - k,
{
    if k < s.len() {
        lemma_no_first_reference(s, k + 1);
    }
}

/// Replacing the first reference of a value whose every `$` starts a reference by a text
/// without `$` leaves one `$` fewer, and every `$` left still starts a reference.
proof fn lemma_splice_reference(value: Seq<char>, w: Seq<char>)
    requires
        dollars_start_references(value),
        has_no_dollar(w),
        first_reference(value) is Some,
    ensures
        ({
            let start = first_reference(value).unwrap();
            let v = splice(value, start, reference_end(value, start), w);
            &&& dollars_start_references(v)
            &&& dollar_count(v) < dollar_count(value)
        }),
{
    let start = first_reference(value).unwrap();
    let end = reference_end(value, start);
    lemma_first_reference_least(value, 0, start);
    lemma_name_run_chars(value, start + 2);
    let p = value.subrange(0, start);
    let m = value.subrange(start, end);
    let r = value.subrange(end, value.len() as int);
    let v = splice(value, start, end, w);
    assert(value =~= p + m + r);
    assert(v =~= p + w + r);
    assert(has_no_dollar(p)) by {
        assert forall|i: int| 0 <= i < p.len() implies #[trigger] p[i] != '$' by {
            if p[i] == '$' {
                assert(value[i] == '$');
            }
        }
    }
    assert(has_no_dollar(m.skip(1))) by {
        assert forall|i: int| 0 <= i < m.skip(1).len() implies #[trigger] m.skip(1)[i] != '$' by {
            assert(m.skip(1)[i] == value[start + 1 + i]);
            if 1 + i >= 2 && 1 + i < 2 + name_run(value, start + 2) {
                assert(is_name_char(value[start + 1 + i]));
            }
        }
    }
    lemma_dollar_count_none(p);
    lemma_dollar_count_none(w);
    lemma_dollar_count_none(m.skip(1));
    lemma_dollar_count_concat(p + m, r);
    lemma_dollar_count_concat(p, m);
    lemma_dollar_count_concat(p + w, r);
    lemma_dollar_count_concat(p, w);
    assert(dollar_count(m) == 1);
    assert forall|i: int| 0 <= i < v.len() && #[trigger] v[i] == '$' implies reference_at(v, i) by {
        if i < p.len() {
            assert(v[i] == p[i]);
        } else if i < p.len() + w.len() {
            assert(v[i] == w[i - p.len()]);
        } else {
            let j = i - p.len() - w.len();
            assert(v[i] == r[j]);
            assert(value[end + j] == r[j]);
            assert(reference_at(value, end + j));
            lemma_reference_at_suffix(p + m, r, j);
            lemma_reference_at_suffix(p + w, r, j);
        }
    }
}

proof fn lemma_expand_run_steps_agree(
    macros: Map<Seq<char>, Seq<char>>,
    name: Seq<char>,
    value: Seq<char>,
    history: Set<Seq<char>>,
    flat: Map<Seq<char>, Seq<char>>,
    steps: nat,
    more: nat,
)
    requires
        expand_run(macros, name, value, history, flat, steps) is Done,
        steps <= more,
    ensures
        expand_run(macros, name, value, history, flat, more) == expand_run(macros, name, value, history, flat, steps),
    decreases more - steps,
{
    if steps < more {
        lemma_expand_run_more_steps(macros, name, value, history, flat, steps);
        lemma_expand_run_steps_agree(macros, name, value, history, flat, steps + 1, more);
    }
}

/// What makes a flattening end: `macros` is finite, every `$` in a macro's value starts a
/// reference, and no value flattened already holds a `$`.
pub open spec fn references_well_formed(
    macros: Map<Seq<char>, Seq<char>>,
    flat: Map<Seq<char>, Seq<char>>,
) -> bool {
    &&& macros.dom().finite()
    &&& forall|k: Seq<char>| #[trigger] macros.contains_key(k) ==> dollars_start_references(macros[k])
    &&& forall|k: Seq<char>| #[trigger] flat.contains_key(k) ==> has_no_dollar(flat[k])
}

/// A flattening that ends leaves only values without `$` in the table.
pub open spec fn ends_without_dollars(outcome: Flattening) -> bool {
    match outcome {
        Flattening::OutOfSteps => false,
        Flattening::Done { flat, .. } => forall|k: Seq<char>| #[trigger] flat.contains_key(k) ==> has_no_dollar(flat[k]),
    }
}

proof fn lemma_unflattened_shrinks(macros: Map<Seq<char>, Seq<char>>, h: Set<Seq<char>>, h1: Set<Seq<char>>)
    requires
        macros.dom().finite(),
        h.subset_of(h1),
    ensures
        macros.dom().difference(h1).len() <= macros.dom().difference(h).len(),
{
    vstd::set_lib::lemma_len_subset(macros.dom().difference(h), macros.dom());
    vstd::set_lib::lemma_len_subset(macros.dom().difference(h1), macros.dom().difference(h));
}

proof fn lemma_insert_shrinks(macros: Map<Seq<char>, Seq<char>>, h: Set<Seq<char>>, name: Seq<char>)
    requires
        macros.dom().finite(),
        macros.contains_key(name),
        !h.contains(name),
    ensures
        macros.dom().difference(h.insert(name)).len() < macros.dom().difference(h).len(),
{
    let d = macros.dom().difference(h);
    vstd::set_lib::lemma_len_subset(d, macros.dom());
    assert(macros.dom().difference(h.insert(name)) =~= d.remove(name));
    vstd::set::axiom_set_remove_len(d, name);
}

proof fn lemma_flatten_ends(
    macros: Map<Seq<char>, Seq<char>>,
    name: Seq<char>,
    history: Set<Seq<char>>,
    flat: Map<Seq<char>, Seq<char>>,
) -> (steps: nat)
    requires
        references_well_formed(macros, flat),
    ensures
        ends_without_dollars(flatten_run(macros, name, history, flat, steps)),
    decreases macros.dom().difference(history).len(), 0nat,
{
    if flat.contains_key(name) || !macros.contains_key(name) || history.contains(name) {
        1
    } else {
        let h0 = history.insert(name);
        lemma_insert_shrinks(macros, history, name);
        let s = lemma_expand_ends(macros, name, macros[name], h0, flat);
        s + 1
    }
}

proof fn lemma_expand_ends(
    macros: Map<Seq<char>, Seq<char>>,
    name: Seq<char>,
    value: Seq<char>,
    history: Set<Seq<char>>,
    flat: Map<Seq<char>, Seq<char>>,
) -> (steps: nat)
    requires
        references_well_formed(macros, flat),
        dollars_start_references(value),
    ensures
        ends_without_dollars(expand_run(macros, name, value, history, flat, steps)),
    decreases macros.dom().difference(history).len(), dollar_count(value) + 1,
{
    match first_reference(value) {
        None => {
            lemma_no_first_reference(value, 0);
            let f = flat.insert(name, value);
            assert(has_no_dollar(value)) by {
                assert forall|i: int| 0 <= i < value.len() implies #[trigger] value[i] != '$' by {
                    if value[i] == '$' {
                        assert(reference_at(value, i));
                    }
                }
            }
            assert forall|k: Seq<char>| #[trigger] f.contains_key(k) implies has_no_dollar(f[k]) by {
                if k != name {
                    assert(flat.contains_key(k));
                }
            }
            1
        },
        Some(start) => {
            let end = reference_end(value, start);
            let sub = reference_name(value, start);
            if flat.contains_key(sub) {
                lemma_splice_reference(value, flat[sub]);
                let v = splice(value, start, end, flat[sub]);
                let s = lemma_expand_ends(macros, name, v, history, flat);
                s + 1
            } else {
                let s1 = lemma_flatten_ends(macros, sub, history, flat);
                lemma_flatten_run_keeps(macros, sub, history, flat, s1);
                match flatten_run(macros, sub, history, flat, s1) {
                    Flattening::OutOfSteps => 0,
                    Flattening::Done { result, history: h1, flat: f1 } => {
                        if result is Err || !f1.contains_key(sub) {
                            s1 + 1
                        } else {
                            assert(references_well_formed(macros, f1));
                            lemma_splice_reference(value, f1[sub]);
                            let v = splice(value, start, end, f1[sub]);
                            lemma_unflattened_shrinks(macros, history, h1);
                            let s2 = lemma_expand_ends(macros, name, v, h1, f1);
                            let steps = if s1 < s2 { s2 } else { s1 };
                            lemma_flatten_run_steps_agree(macros, sub, history, flat, s1, steps);
                            lemma_expand_run_steps_agree(macros, name, v, h1, f1, s2, steps);
                            steps + 1
                        }
                    },
                }
            }
        },
    }
}

/// Law: flattening ends where `macros` is finite, every `$` in a macro's value starts a
/// reference `${name}`, and no value flattened already holds a `$` (as for a table of
/// flattened macros that starts empty); every value it leaves in the table is then free of `$`.
pub proof fn law_flattening_ends(
    macros: Map<Seq<char>, Seq<char>>,
    name: Seq<char>,
    history: Set<Seq<char>>,
    flat: Map<Seq<char>, Seq<char>>,
)
    requires
        references_well_formed(macros, flat),
    ensures
        flattening_ends(macros, name, history, flat),
        ends_without_dollars(flattening(macros, name, history, flat)),
{
    let steps = lemma_flatten_ends(macros, name, history, flat);
    law_flattening_unique(macros, name, history, flat, steps);
}

fn check_dollars_start_references(s: &Vec<char>) -> (r: bool)
    ensures
        r == dollars_start_references(s@),
{
    let n = s.len();
    let mut i: usize = 0;
    while i < n
        invariant
            n == s@.len(),
            i <= n,
            forall|j: int| 0 <= j < i && #[trigger] s@[j] == '$' ==> reference_at(s@, j),
        decreases n - i,
    {
        if s[i] == '$' {
            let ok = if i + 1 < n && s[i + 1] == '{' {
                let k = scan_name(s, i + 2);
                k > i + 2 && k < n && s[k] == '}'
            } else {
                false
            };
            if !ok {
                return false;
            }
        }
        i = i + 1;
    }
    true
}

fn check_no_dollar(s: &Vec<char>) -> (r: bool)
    ensures
        r == has_no_dollar(s@),
{
    let mut i: usize = 0;
    while i < s.len()
        invariant
            i <= s@.len(),
            forall|j: int| 0 <= j < i ==> #[trigger] s@[j] != '$',
        decreases s@.len() - i,
    {
        if s[i] == '$' {
            return false;
        }
        i = i + 1;
    }
    true
}

/// Whether the references of `macros` are well formed for flattening into `flat_macros`
/// (see [`references_well_formed`]); where they are, every flattening ends
/// ([`law_flattening_ends`]).
pub fn references_checked(macros: &MacroMap, flat_macros: &MacroMap) -> (r: bool)
    ensures
        r == references_well_formed(macros@, flat_macros@),
{
    proof {
        macros.lemma_names_finite();
    }
    macros.dollars_start_references_in_all() && flat_macros.no_dollar_in_all()
}

/// `value` with each reference, from left to right, replaced by the value in `flat` of the
/// macro it names; `None` where a named macro is not in `flat`.
pub open spec fn substituted(value: Seq<char>, flat: Map<Seq<char>, Seq<char>>) -> Option<Seq<char>>
    decreases value.len(),
{
    match first_reference(value) {
        None => Some(value),
        Some(start) => {
            let end = reference_end(value, start);
            let sub = reference_name(value, start);
            if 0 <= start < end <= value.len() && flat.contains_key(sub) {
                match substituted(value.subrange(end, value.len() as int), flat) {
                    Some(rest) => Some(value.subrange(0, start) + flat[sub] + rest),
                    None => None,
                }
            } else {
                None
            }
        }
    }
}

proof fn lemma_first_reference_after_plain(a: Seq<char>, r: Seq<char>, j: int)
    requires
        has_no_dollar(a),
        0 <= j,
    ensures
        first_reference_from(a + r, a.len() + j) == match first_reference_from(r, j) {
            Some(t) => Some(a.len() + t),
            None => None::<int>,
        },
    decreases r.len() - j,
{
    if j < r.len() {
        lemma_reference_at_suffix(a, r, j);
        lemma_first_reference_after_plain(a, r, j + 1);
    }
}

proof fn lemma_first_reference_plain_prefix(a: Seq<char>, r: Seq<char>, k: int)
    requires
        has_no_dollar(a),
        0 <= k <= a.len(),
    ensures
        first_reference_from(a + r, k) == match first_reference_from(r, 0) {
            Some(t) => Some(a.len() + t),
            None => None::<int>,
        },
    decreases a.len() - k,
{
    if k < a.len() {
        assert((a + r)[k] == a[k]);
        lemma_first_reference_plain_prefix(a, r, k + 1);
    } else {
        lemma_first_reference_after_plain(a, r, 0);
    }
}

/// Substituting in a text that starts with a part without `$` leaves that part as it is.
proof fn lemma_substituted_plain_prefix(a: Seq<char>, r: Seq<char>, f: Map<Seq<char>, Seq<char>>)
    requires
        has_no_dollar(a),
    ensures
        substituted(a + r, f) == match substituted(r, f) {
            Some(x) => Some(a + x),
            None => None::<Seq<char>>,
        },
{
    lemma_first_reference_plain_prefix(a, r, 0);
    let s = a + r;
    match first_reference(r) {
        None => {},
        Some(t) => {
            lemma_first_reference_least(r, 0, t);
            lemma_name_run_suffix(a, r, t + 2);
            let end = reference_end(r, t);
            assert(reference_end(s, a.len() + t) == a.len() + end);
            assert(reference_name(s, a.len() + t) =~= reference_name(r, t));
            if 0 <= t < end <= r.len() {
                assert(s.subrange(a.len() + end, s.len() as int) =~= r.subrange(end, r.len() as int));
                assert(s.subrange(0, a.len() + t) =~= a + r.subrange(0, t));
                if let Some(rest) = substituted(r.subrange(end, r.len() as int), f) {
                    if f.contains_key(reference_name(r, t)) {
                        assert(a + r.subrange(0, t) + f[reference_name(r, t)] + rest =~= a + (r.subrange(0, t) + f[reference_name(r, t)] + rest));
                    }
                }
            }
        },
    }
}

/// Substituting with more flattened macros gives the same where it gave a result.
proof fn lemma_substituted_grows(v: Seq<char>, f1: Map<Seq<char>, Seq<char>>, f2: Map<Seq<char>, Seq<char>>)
    requires
        f1.submap_of(f2),
        substituted(v, f1) is Some,
    ensures
        substituted(v, f2) == substituted(v, f1),
    decreases v.len(),
{
    if let Some(start) = first_reference(v) {
        let end = reference_end(v, start);
        let sub = reference_name(v, start);
        let in2 = f2.dom().contains(sub);
        lemma_substituted_grows(v.subrange(end, v.len() as int), f1, f2);
    }
}

/// Every macro that a flattening adds to the table of flattened macros stands there with its
/// value substituted.
pub open spec fn added_by_substitution(
    macros: Map<Seq<char>, Seq<char>>,
    flat: Map<Seq<char>, Seq<char>>,
    f: Map<Seq<char>, Seq<char>>,
) -> bool {
    forall|k: Seq<char>| #[trigger] f.contains_key(k) && !flat.contains_key(k) ==> substituted(macros[k], f) == Some(f[k])
}

proof fn lemma_done_without_dollars(
    macros: Map<Seq<char>, Seq<char>>,
    name: Seq<char>,
    history: Set<Seq<char>>,
    flat: Map<Seq<char>, Seq<char>>,
    steps: nat,
)
    requires
        references_well_formed(macros, flat),
        flatten_run(macros, name, history, flat, steps) is Done,
    ensures
        ends_without_dollars(flatten_run(macros, name, history, flat, steps)),
{
    let t = lemma_flatten_ends(macros, name, history, flat);
    if t <= steps {
        lemma_flatten_run_steps_agree(macros, name, history, flat, t, steps);
    } else {
        lemma_flatten_run_steps_agree(macros, name, history, flat, steps, t);
    }
}

proof fn lemma_flatten_run_substitutes(
    macros: Map<Seq<char>, Seq<char>>,
    name: Seq<char>,
    history: Set<Seq<char>>,
    flat: Map<Seq<char>, Seq<char>>,
    steps: nat,
)
    requires
        references_well_formed(macros, flat),
    ensures
        flatten_run(macros, name, history, flat, steps) matches Flattening::Done { flat: f, .. }
            ==> added_by_substitution(macros, flat, f),
    decreases steps, 1nat,
{
    if steps > 0 && !flat.contains_key(name) && macros.contains_key(name) && !history.contains(name) {
        let h0 = history.insert(name);
        lemma_expand_run_substitutes(macros, name, macros[name], h0, flat, (steps - 1) as nat);
        if let Flattening::Done { result, flat: f, .. } = expand_run(macros, name, macros[name], h0, flat, (steps - 1) as nat) {
            assert forall|k: Seq<char>| #[trigger] f.contains_key(k) && !flat.contains_key(k)
                implies substituted(macros[k], f) == Some(f[k]) by {
                if k == name {
                    assert(result is Ok);
                }
            }
        }
    }
}

proof fn lemma_expand_run_substitutes(
    macros: Map<Seq<char>, Seq<char>>,
    name: Seq<char>,
    value: Seq<char>,
    history: Set<Seq<char>>,
    flat: Map<Seq<char>, Seq<char>>,
    steps: nat,
)
    requires
        references_well_formed(macros, flat),
        dollars_start_references(value),
        history.contains(name),
        !flat.contains_key(name),
        macros.contains_key(name),
    ensures
        expand_run(macros, name, value, history, flat, steps) matches Flattening::Done { result, flat: f, .. } ==> {
            &&& forall|k: Seq<char>| #[trigger] f.contains_key(k) && !flat.contains_key(k) && k != name
                ==> substituted(macros[k], f) == Some(f[k])
            &&& result is Ok ==> f.contains_key(name) && substituted(value, f) == Some(f[name])
            &&& result is Err ==> !f.contains_key(name)
        },
    decreases steps, 0nat,
{
    if steps > 0 {
        match first_reference(value) {
            None => {},
            Some(start) => {
                let end = reference_end(value, start);
                let sub = reference_name(value, start);
                let rest = (steps - 1) as nat;
                lemma_first_reference_least(value, 0, start);
                let p = value.subrange(0, start);
                let r = value.subrange(end, value.len() as int);
                let (w, h1, f1) = if flat.contains_key(sub) {
                    (flat[sub], history, flat)
                } else {
                    match flatten_run(macros, sub, history, flat, rest) {
                        Flattening::Done { result: Ok(()), history: h1, flat: f1 } => {
                            (if f1.contains_key(sub) { f1[sub] } else { Seq::empty() }, h1, f1)
                        },
                        _ => (Seq::empty(), history, flat),
                    }
                };
                if !flat.contains_key(sub) {
                    lemma_flatten_run_keeps(macros, sub, history, flat, rest);
                    lemma_flatten_run_substitutes(macros, sub, history, flat, rest);
                }
                let continues = flat.contains_key(sub) || (flatten_run(macros, sub, history, flat, rest)
                    matches Flattening::Done { result: Ok(()), flat: f1x, .. } && f1x.contains_key(sub));
                if continues {
                    if !flat.contains_key(sub) {
                        lemma_done_without_dollars(macros, sub, history, flat, rest);
                    }
                    assert(references_well_formed(macros, f1));
                    assert(has_no_dollar(w));
                    lemma_splice_reference(value, w);
                    let v = splice(value, start, end, w);
                    lemma_expand_run_substitutes(macros, name, v, h1, f1, rest);
                    lemma_expand_run_keeps(macros, name, v, h1, f1, rest);
                    assert(expand_run(macros, name, value, history, flat, steps) == expand_run(macros, name, v, h1, f1, rest));
                    if let Flattening::Done { result, flat: f, .. } = expand_run(macros, name, v, h1, f1, rest) {
                        assert forall|k: Seq<char>| #[trigger] f.contains_key(k) && !flat.contains_key(k) && k != name
                            implies substituted(macros[k], f) == Some(f[k]) by {
                            if f1.contains_key(k) {
                                let in1 = f1.dom().contains(k);
                                let in2 = f.dom().contains(k);
                                assert(f1[k] == f[k]);
                                lemma_substituted_grows(macros[k], f1, f);
                            }
                        }
                        if result is Ok {
                            assert(v =~= (p + w) + r);
                            assert(has_no_dollar(p + w)) by {
                                assert forall|i: int| 0 <= i < (p + w).len() implies #[trigger] (p + w)[i] != '$' by {
                                    if i < p.len() {
                                        assert((p + w)[i] == value[i]);
                                        if value[i] == '$' {
                                            assert(reference_at(value, i));
                                        }
                                    } else {
                                        assert((p + w)[i] == w[i - p.len()]);
                                    }
                                }
                            }
                            lemma_substituted_plain_prefix(p + w, r, f);
                            let in1 = f1.dom().contains(sub);
                            let in2 = f.dom().contains(sub);
                            assert(f[sub] == w);
                            if let Some(x) = substituted(r, f) {
                                assert(p + w + x =~= (p + w) + x);
                            }
                        }
                    }
                }
            },
        }
    }
}

/// Law: where every `$` in a macro's value starts a reference and no macro flattened
/// already holds a `$`, flattening stores each macro it flattens (on success, the macro asked
/// for among them) as its value with each reference `${n}`, from left to right, replaced by
/// the stored flattened value of `n`; the macros referred to are all stored.
pub proof fn law_flattening_substitutes(
    macros: Map<Seq<char>, Seq<char>>,
    name: Seq<char>,
    history: Set<Seq<char>>,
    flat: Map<Seq<char>, Seq<char>>,
)
    requires
        references_well_formed(macros, flat),
    ensures
        flattening_ends(macros, name, history, flat),
        flattening(macros, name, history, flat) matches Flattening::Done { result, flat: f, .. } && {
            &&& added_by_substitution(macros, flat, f)
            &&& result is Ok && !flat.contains_key(name) ==> f.contains_key(name) && substituted(macros[name], f) == Some(f[name])
        },
{
    law_flattening_ends(macros, name, history, flat);
    law_flattening_keeps(macros, name, history, flat);
    let steps = choose|steps: nat| flatten_run(macros, name, history, flat, steps) is Done;
    lemma_flatten_run_substitutes(macros, name, history, flat, steps);
}

proof fn lemma_name_run_of_name(b: Seq<char>, c: char, j: int)
    requires
        0 <= j <= b.len(),
        forall|i: int| 0 <= i < b.len() ==> is_name_char(#[trigger] b[i]),
        !is_name_char(c),
    ensures
        name_run(b + seq![c], j) == b.len() - j,
    decreases b.len() - j,
{
    if j < b.len() {
        assert((b + seq![c])[j] == b[j]);
        lemma_name_run_of_name(b, c, j + 1);
    } else {
        assert((b + seq![c])[j] == c);
    }
}

/// Law: where a macro's value is exactly one reference `${b}` and the value of `b` holds no
/// `$`, a successful flattening stores for the macro the value of `b`.
pub proof fn law_flattening_single_reference(
    macros: Map<Seq<char>, Seq<char>>,
    a: Seq<char>,
    b: Seq<char>,
    history: Set<Seq<char>>,
    flat: Map<Seq<char>, Seq<char>>,
)
    requires
        references_well_formed(macros, flat),
        b.len() > 0,
        forall|i: int| 0 <= i < b.len() ==> is_name_char(#[trigger] b[i]),
        macros.contains_key(a),
        macros[a] == seq!['$', '{'] + b + seq!['}'],
        macros.contains_key(b),
        has_no_dollar(macros[b]),
        !flat.contains_key(a),
        !flat.contains_key(b),
    ensures
        flattening_ends(macros, a, history, flat),
        flattening(macros, a, history, flat) matches Flattening::Done { result, flat: f, .. } && (
        result is Ok ==> f.contains_key(a) && f[a] == macros[b]),
{
    law_flattening_substitutes(macros, a, history, flat);
    law_flattening_keeps(macros, a, history, flat);
    let v = macros[a];
    let head = seq!['$', '{'];
    let tail = b + seq!['}'];
    assert(v =~= head + tail);
    lemma_name_run_suffix(head, tail, 0);
    lemma_name_run_of_name(b, '}', 0);
    assert(name_run(v, 2) == b.len());
    assert(reference_at(v, 0));
    assert(first_reference(v) == Some(0int));
    assert(reference_end(v, 0) == v.len());
    assert(reference_name(v, 0) =~= b);
    assert(v.subrange(v.len() as int, v.len() as int) =~= Seq::<char>::empty());
    assert(v.subrange(0, 0) =~= Seq::<char>::empty());
    let w = macros[b];
    lemma_no_reference_without_dollar(w);
    if let Flattening::Done { result, flat: f, .. } = flattening(macros, a, history, flat) {
        if result is Ok {
            assert(f.contains_key(b));
            assert(first_reference(Seq::<char>::empty()) is None);
            assert(substituted(v.subrange(v.len() as int, v.len() as int), f) == Some(Seq::<char>::empty()));
            assert(substituted(v, f) == Some(Seq::<char>::empty() + f[b] + Seq::<char>::empty()));
            assert(Seq::<char>::empty() + f[b] + Seq::<char>::empty() =~= f[b]);
            assert(substituted(w, f) == Some(w));
        }
    }
}

proof fn lemma_no_reference_without_dollar(w: Seq<char>)
    requires
        has_no_dollar(w),
    ensures
        first_reference(w) is None,
{
    if let Some(t) = first_reference(w) {
        lemma_first_reference_least(w, 0, t);
        assert(w[t] == '$');
    }
}

/// A set of macro names.
pub struct MacroNames {
    names: Vec<String>,
}

impl MacroNames {
    /// The names in the set.
    pub closed spec fn names_view(self) -> Set<Seq<char>> {
        Set::new(|k: Seq<char>| exists|i: int| 0 <= i < self.names@.len() && self.names@[i]@ == k)
    }

    /// An empty set.
    pub fn new() -> (s: Self)
        ensures
            s@ == Set::<Seq<char>>::empty(),
    {
        let s = MacroNames { names: Vec::new() };
        assert(s@ =~= Set::<Seq<char>>::empty());
        s
    }

    /// Whether `name` is in the set.
    pub fn contains(&self, name: &str) -> (r: bool)
        ensures
            r == self@.contains(name@),
    {
        let key = name.to_owned();
        let mut i: usize = 0;
        while i < self.names.len()
            invariant
                i <= self.names@.len(),
                key@ == name@,
                forall|k: int| 0 <= k < i ==> self.names@[k]@ != name@,
            decreases self.names@.len() - i,
        {
            if self.names[i] == key {
                return true;
            }
            i = i + 1;
        }
        proof {
            if self@.contains(name@) {
                let j = choose|j: int| 0 <= j < self.names@.len() && self.names@[j]@ == name@;
            }
        }
        false
    }

    /// Adds `name` to the set.
    pub fn insert(&mut self, name: String)
        ensures
            final(self)@ == old(self)@.insert(name@),
    {
        if !self.contains(name.as_str()) {
            let ghost old_names = self.names@;
            self.names.push(name);
            proof {
                assert forall|q: Seq<char>| #[trigger] self@.contains(q) implies old(self)@.insert(name@).contains(q) by {
                    let j = choose|j: int| 0 <= j < self.names@.len() && self.names@[j]@ == q;
                    if j < old_names.len() {
                        assert(old_names[j]@ == q);
                    }
                }
                assert forall|q: Seq<char>| old(self)@.insert(name@).contains(q) implies #[trigger] self@.contains(q) by {
                    if q == name@ {
                        assert(self.names@[old_names.len() as int]@ == q);
                    } else {
                        let j = choose|j: int| 0 <= j < old_names.len() && old_names[j]@ == q;
                        assert(self.names@[j]@ == q);
                    }
                }
            }
        }
        assert(self@ =~= old(self)@.insert(name@));
    }
}

impl View for MacroNames {
    type V = Set<Seq<char>>;

    open spec fn view(&self) -> Set<Seq<char>> {
        self.names_view()
    }
}

} // verus!

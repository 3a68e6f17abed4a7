//! Environment variables as values.

use vstd::hash_map::StringHashMap;
use vstd::prelude::*;

verus! {

/// What a set variable holds.
pub enum EnvText {
    /// Unicode text, possibly empty.
    Text(String),
    /// Bytes that are not Unicode.
    NotUnicode,
}

/// An [`EnvText`] with its text as characters.
pub enum EnvTextView {
    /// Unicode text.
    Text(Seq<char>),
    /// Bytes that are not Unicode.
    NotUnicode,
}

impl View for EnvText {
    type V = EnvTextView;

    open spec fn view(&self) -> EnvTextView {
        match self {
            EnvText::Text(text) => EnvTextView::Text(text@),
            EnvText::NotUnicode => EnvTextView::NotUnicode,
        }
    }
}

/// The variables of an environment, by name.
pub type Vars = Map<Seq<char>, EnvTextView>;

/// A variable's text: none where it is unset or not Unicode.
pub open spec fn var_text(vars: Vars, name: Seq<char>) -> Option<Seq<char>> {
    if vars.contains_key(name) {
        match vars[name] {
            EnvTextView::Text(text) => Some(text),
            EnvTextView::NotUnicode => None,
        }
    } else {
        None
    }
}

/// A snapshot of environment variables.
pub struct Environment {
    vars: StringHashMap<EnvText>,
}

impl View for Environment {
    type V = Vars;

    closed spec fn view(&self) -> Vars {
        self.vars@.map_values(|text: EnvText| text@)
    }
}

impl Environment {
    /// An environment without variables.
    pub fn new() -> (env: Self)
        ensures
            env@ == Vars::empty(),
    {
        let env = Environment { vars: StringHashMap::new() };
        assert(env@ =~= Vars::empty());
        env
    }

    /// Sets a variable.
    pub fn set_var(&mut self, name: &str, value: EnvText)
        ensures
            final(self)@ == old(self)@.insert(name@, value@),
    {
        self.vars.insert(name.to_owned(), value);
        assert(self@ =~= old(self)@.insert(name@, value@));
    }

    /// Unsets a variable.
    pub fn remove_var(&mut self, name: &str)
        ensures
            final(self)@ == old(self)@.remove(name@),
    {
        self.vars.remove(name);
        assert(self@ =~= old(self)@.remove(name@));
    }

    /// What a variable holds, if it is set.
    pub fn var(&self, name: &str) -> (value: Option<&EnvText>)
        ensures
            match value {
                Some(text) => self@.contains_key(name@) && text@ == self@[name@],
                None => !self@.contains_key(name@),
            },
    {
        self.vars.get(name)
    }

    /// A variable's text, if it is set and Unicode.
    pub fn var_str(&self, name: &str) -> (value: Option<&str>)
        ensures
            match value {
                Some(text) => var_text(self@, name@) == Some(text@),
                None => var_text(self@, name@) is None,
            },
    {
        match self.var(name) {
            Some(EnvText::Text(text)) => Some(text.as_str()),
            _ => None,
        }
    }
}

/// An answer that is read once and kept.
pub struct FlagCache {
    answer: Option<bool>,
}

impl View for FlagCache {
    type V = Option<bool>;

    closed spec fn view(&self) -> Option<bool> {
        self.answer
    }
}

/// The answer of a cache that would now read `fresh`.
pub open spec fn cached(kept: Option<bool>, fresh: bool) -> bool {
    match kept {
        Some(answer) => answer,
        None => fresh,
    }
}

impl FlagCache {
    /// A cache that has not read anything.
    pub fn new() -> (cache: Self)
        ensures
            cache@ is None,
    {
        FlagCache { answer: None }
    }

    /// The kept answer, which is `fresh` at the first call.
    pub fn get_or_init(&mut self, fresh: bool) -> (answer: bool)
        ensures
            answer == cached(old(self)@, fresh),
            final(self)@ == Some(answer),
    {
        match self.answer {
            Some(answer) => answer,
            None => {
                self.answer = Some(fresh);
                fresh
            },
        }
    }
}

/// Once read, an answer stays: what the environment says later no longer matters.
pub proof fn law_cached_answer_stays(kept: Option<bool>, first: bool, later: bool)
    ensures
        cached(Some(cached(kept, first)), later) == cached(kept, first),
{
}

/// A variable has a text exactly where it is set to Unicode, and then that one.
pub proof fn law_text_is_what_is_set(vars: Vars, name: Seq<char>, text: Seq<char>)
    ensures
        var_text(vars, name) == Some(text) <==> vars.contains_key(name) && vars[name]
            == EnvTextView::Text(text),
        var_text(vars, name) is None <==> !vars.contains_key(name) || vars[name]
            == EnvTextView::NotUnicode,
{
}

/// A cache that has not read anything answers what it reads now, and one that has read something
/// answers that.
pub proof fn law_first_reading_is_the_answer(kept: Option<bool>, fresh: bool)
    ensures
        kept is None ==> cached(kept, fresh) == fresh,
        kept is Some ==> Some(cached(kept, fresh)) == kept,
{
}

} // verus!

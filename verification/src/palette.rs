//! The command palette: a list of commands that narrows as its user types.
use vstd::prelude::*;
use crate::action::{ExAction, ExRequest};
use crate::strings::{char_lowercase, char_to_lowercase, chars_of};
use crate::text::imin;

verus! {

/// What a command does.
pub enum PaletteAction {
    Ex(ExAction),
    /// Show or hide control characters.
    ToggleWhitespace,
}

pub enum PaletteRequest {
    Ex(ExRequest),
    ToggleWhitespace,
}

impl View for PaletteAction {
    type V = PaletteRequest;

    open spec fn view(&self) -> PaletteRequest {
        match self {
            PaletteAction::Ex(a) => PaletteRequest::Ex(a@),
            PaletteAction::ToggleWhitespace => PaletteRequest::ToggleWhitespace,
        }
    }
}

impl Clone for PaletteAction {
    fn clone(&self) -> (r: PaletteAction)
        ensures
            r@ == self@,
    {
        match self {
            PaletteAction::Ex(a) => PaletteAction::Ex(a.clone()),
            PaletteAction::ToggleWhitespace => PaletteAction::ToggleWhitespace,
        }
    }
}

pub struct Command {
    pub title: &'static str,
    pub action: PaletteAction,
}

/// What the palette offers.
pub open spec fn offered() -> Seq<(Seq<char>, PaletteRequest)> {
    seq![
        ("Write file"@, PaletteRequest::Ex(ExRequest::Save)),
        ("Toggle whitespace display"@, PaletteRequest::ToggleWhitespace),
        ("Buffer: next"@, PaletteRequest::Ex(ExRequest::NextBuffer)),
        ("Buffer: previous"@, PaletteRequest::Ex(ExRequest::PrevBuffer)),
    ]
}

pub open spec fn command_list(v: Seq<Command>) -> Seq<(Seq<char>, PaletteRequest)> {
    v.map_values(|c: Command| (c.title@, c.action@))
}

/// All commands, in the order in which they are offered.
pub fn commands() -> (r: Vec<Command>)
    ensures
        command_list(r@) == offered(),
{
    let mut r: Vec<Command> = Vec::new();
    r.push(Command { title: "Write file", action: PaletteAction::Ex(ExAction::Save) });
    r.push(
        Command { title: "Toggle whitespace display", action: PaletteAction::ToggleWhitespace },
    );
    r.push(Command { title: "Buffer: next", action: PaletteAction::Ex(ExAction::NextBuffer) });
    r.push(Command { title: "Buffer: previous", action: PaletteAction::Ex(ExAction::PrevBuffer) });
    assert(command_list(r@) =~= offered());
    r
}

/// The characters of `n` occur in `h` in order, with others in between or
/// not.
pub open spec fn is_subsequence(n: Seq<char>, h: Seq<char>) -> bool
    decreases h.len(),
{
    if n.len() == 0 {
        true
    } else if h.len() == 0 {
        false
    } else if n[0] == h[0] {
        is_subsequence(n.drop_first(), h.drop_first())
    } else {
        is_subsequence(n, h.drop_first())
    }
}

/// `s` in lower case, character by character.
pub open spec fn lowered(s: Seq<char>) -> Seq<char>
    decreases s.len(),
{
    if s.len() == 0 {
        Seq::empty()
    } else {
        lowered(s.drop_last()) + char_lowercase(s.last())
    }
}

/// Whether `query` finds `title`.
pub open spec fn finds(query: Seq<char>, title: Seq<char>) -> bool {
    is_subsequence(lowered(query), lowered(title))
}

/// Whether the characters of `needle` occur in `hay` in order.
pub fn subsequence(needle: &[char], hay: &[char]) -> (r: bool)
    ensures
        r == is_subsequence(needle@, hay@),
{
    let mut i: usize = 0;
    let mut j: usize = 0;
    assert(needle@.skip(0) =~= needle@);
    assert(hay@.skip(0) =~= hay@);
    while i < needle.len() && j < hay.len()
        invariant
            i <= needle@.len(),
            j <= hay@.len(),
            is_subsequence(needle@.skip(i as int), hay@.skip(j as int)) == is_subsequence(
                needle@,
                hay@,
            ),
        decreases hay@.len() - j,
    {
        assert(needle@.skip(i as int).drop_first() =~= needle@.skip(i + 1));
        assert(hay@.skip(j as int).drop_first() =~= hay@.skip(j + 1));
        if needle[i] == hay[j] {
            i += 1;
        }
        j += 1;
    }
    i >= needle.len()
}

fn lower_chars(s: &str) -> (r: Vec<char>)
    ensures
        r@ == lowered(s@),
{
    let chars = chars_of(s);
    let mut r: Vec<char> = Vec::new();
    let mut i: usize = 0;
    assert(chars@.take(0) =~= Seq::<char>::empty());
    while i < chars.len()
        invariant
            i <= chars@.len(),
            r@ == lowered(chars@.take(i as int)),
        decreases chars@.len() - i,
    {
        let mut low = char_to_lowercase(chars[i]);
        r.append(&mut low);
        assert(chars@.take(i + 1).drop_last() =~= chars@.take(i as int));
        i += 1;
    }
    assert(chars@.take(i as int) =~= chars@);
    r
}

/// Whether the characters of `needle` occur in `haystack` in order, whatever
/// their case.
pub fn fuzzy_match(needle: &str, haystack: &str) -> (r: bool)
    ensures
        r == finds(needle@, haystack@),
{
    let n = lower_chars(needle);
    let h = lower_chars(haystack);
    subsequence(n.as_slice(), h.as_slice())
}

/// The open palette: what was typed, all commands, the indices of those that
/// the query finds, and which of these is highlighted.
pub struct CommandPalette {
    pub query: String,
    pub commands: Vec<Command>,
    pub filtered: Vec<usize>,
    pub selected: usize,
}

/// The indices below `n` of the commands that a query finds.
pub open spec fn found(cs: Seq<(Seq<char>, PaletteRequest)>, query: Seq<char>, n: int) -> Seq<usize>
    decreases n,
{
    if n <= 0 {
        Seq::empty()
    } else if query.len() == 0 || finds(query, cs[n - 1].0) {
        found(cs, query, n - 1).push((n - 1) as usize)
    } else {
        found(cs, query, n - 1)
    }
}

impl CommandPalette {
    /// All commands are there, the list shows what the query finds, and the
    /// highlight is on it, or at 0 when it is empty.
    pub open spec fn wf(&self) -> bool {
        &&& command_list(self.commands@) == offered()
        &&& self.filtered@ == found(offered(), self.query@, offered().len() as int)
        &&& self.selected == 0 || self.selected < self.filtered@.len()
    }

    /// A palette with nothing typed yet.
    pub fn new() -> (p: CommandPalette)
        ensures
            p.wf(),
            p.query@ == Seq::<char>::empty(),
            p.selected == 0,
    {
        let mut p = CommandPalette {
            query: String::new(),
            commands: commands(),
            filtered: Vec::new(),
            selected: 0,
        };
        p.refilter();
        p
    }

    fn refilter(&mut self)
        requires
            command_list(old(self).commands@) == offered(),
        ensures
            final(self).wf(),
            final(self).query@ == old(self).query@,
            final(self).selected == 0,
    {
        let ghost cs = offered();
        let mut filtered: Vec<usize> = Vec::new();
        let n: usize = self.commands.len();
        let mut i: usize = 0;
        while i < n
            invariant
                i <= n == self.commands@.len() == cs.len(),
                cs == command_list(self.commands@),
                cs == offered(),
                self.query@ == old(self).query@,
                filtered@ == found(cs, self.query@, i as int),
            decreases n - i,
        {
            assert(cs[i as int].0 == self.commands@[i as int].title@);
            if self.query.as_str().unicode_len() == 0 || fuzzy_match(
                self.query.as_str(),
                self.commands[i].title,
            ) {
                filtered.push(i);
            }
            i += 1;
        }
        self.filtered = filtered;
        self.selected = 0;
    }

    /// Type a character.
    pub fn insert_char(&mut self, c: char)
        requires
            old(self).wf(),
        ensures
            final(self).wf(),
            final(self).query@ == old(self).query@.push(c),
            final(self).selected == 0,
    {
        self.query.push(c);
        self.refilter();
    }

    /// Take back a character, if there is one.
    pub fn backspace(&mut self)
        requires
            old(self).wf(),
        ensures
            final(self).wf(),
            final(self).query@ == (if old(self).query@.len() == 0 {
                old(self).query@
            } else {
                old(self).query@.drop_last()
            }),
            final(self).selected == 0,
    {
        let _ = self.query.pop();
        self.refilter();
    }

    /// Move the highlight up, as far as the top.
    pub fn move_up(&mut self)
        requires
            old(self).wf(),
        ensures
            final(self).wf(),
            final(self).query@ == old(self).query@,
            final(self).selected == (if old(self).selected == 0 {
                0
            } else {
                old(self).selected - 1
            }),
    {
        self.selected = self.selected.saturating_sub(1);
    }

    /// Move the highlight down, as far as the last match.
    pub fn move_down(&mut self)
        requires
            old(self).wf(),
        ensures
            final(self).wf(),
            final(self).query@ == old(self).query@,
            final(self).selected == (if old(self).filtered@.len() > 1 {
                imin(old(self).selected + 1, old(self).filtered@.len() - 1)
            } else {
                old(self).selected as int
            }),
    {
        if self.filtered.len() > 1 {
            let last: usize = self.filtered.len() - 1;
            self.selected = if self.selected < last { self.selected + 1 } else { last };
        }
    }

    /// What the highlighted command does; nothing when no command is found.
    pub fn selected_action(&self) -> (r: Option<&PaletteAction>)
        requires
            self.wf(),
        ensures
            match r {
                None => self.filtered@.len() == 0,
                Some(a) => self.filtered@.len() > 0 && a@ == offered()[
                    self.filtered@[self.selected as int] as int].1,
            },
    {
        if self.selected < self.filtered.len() {
            proof {
                lemma_found(offered(), self.query@, offered().len() as int);
            }
            let i: usize = self.filtered[self.selected];
            assert(command_list(self.commands@)[i as int].1 == self.commands@[i as int].action@);
            Some(&self.commands[i].action)
        } else {
            None
        }
    }
}

proof fn lemma_found(cs: Seq<(Seq<char>, PaletteRequest)>, query: Seq<char>, n: int)
    requires
        0 <= n <= cs.len(),
        cs.len() <= usize::MAX,
    ensures
        forall|i: int| 0 <= i < found(cs, query, n).len() ==> #[trigger] found(cs, query, n)[i] < n,
    decreases n,
{
    if n > 0 {
        lemma_found(cs, query, n - 1);
        let before = found(cs, query, n - 1);
        assert forall|i: int| 0 <= i < found(cs, query, n).len() implies #[trigger] found(
            cs,
            query,
            n,
        )[i] < n by {
            if i < before.len() {
                assert(before[i] < n - 1);
            }
        }
    }
}

impl Default for CommandPalette {
    fn default() -> (p: CommandPalette)
        ensures
            p.wf(),
            p.query@ == Seq::<char>::empty(),
            p.selected == 0,
    {
        CommandPalette::new()
    }
}

/// Typing more never brings a command back.
pub proof fn typing_only_narrows(n: Seq<char>, h: Seq<char>, c: char)
    ensures
        is_subsequence(n.push(c), h) ==> is_subsequence(n, h),
    decreases h.len(),
{
    if n.len() > 0 && h.len() > 0 {
        assert(n.push(c)[0] == n[0]);
        assert(n.push(c).drop_first() =~= n.drop_first().push(c));
        if n[0] == h[0] {
            typing_only_narrows(n.drop_first(), h.drop_first(), c);
        } else {
            typing_only_narrows(n, h.drop_first(), c);
        }
    }
}

/// Places in `h`, from the first one that is allowed on, that spell `n`.
pub open spec fn spells(n: Seq<char>, h: Seq<char>, at: Seq<int>) -> bool {
    &&& at.len() == n.len()
    &&& forall|i: int| 0 <= i < at.len() ==> 0 <= #[trigger] at[i] < h.len() && h[at[i]] == n[i]
    &&& forall|i: int, j: int| 0 <= i < j < at.len() ==> #[trigger] at[i] < #[trigger] at[j]
}

/// One text is a subsequence of another exactly where its characters are found
/// in it in order.
pub proof fn subsequences_are_found_in_order(n: Seq<char>, h: Seq<char>)
    ensures
        is_subsequence(n, h) <==> exists|at: Seq<int>| #[trigger] spells(n, h, at),
    decreases h.len(),
{
    if n.len() == 0 {
        assert(spells(n, h, Seq::empty()));
    } else if h.len() > 0 {
        let t = h.drop_first();
        if n[0] == h[0] {
            let m = n.drop_first();
            subsequences_are_found_in_order(m, t);
            if is_subsequence(n, h) {
                let at = choose|at: Seq<int>| #[trigger] spells(m, t, at);
                let on = Seq::new(n.len(), |i: int| if i == 0 { 0 } else { at[i - 1] + 1 });
                assert forall|i: int| 0 <= i < on.len() implies 0 <= #[trigger] on[i] < h.len()
                    && h[on[i]] == n[i] by {
                    if i > 0 {
                        assert(t[at[i - 1]] == m[i - 1]);
                    }
                }
                assert forall|i: int, j: int| 0 <= i < j < on.len() implies #[trigger] on[i]
                    < #[trigger] on[j] by {
                    assert(0 <= at[j - 1]);
                    if i > 0 {
                        assert(at[i - 1] < at[j - 1]);
                    }
                }
                assert(spells(n, h, on));
            }
            if exists|at: Seq<int>| #[trigger] spells(n, h, at) {
                let at = choose|at: Seq<int>| #[trigger] spells(n, h, at);
                let on = Seq::new(m.len(), |i: int| at[i + 1] - 1);
                assert forall|i: int| 0 <= i < on.len() implies 0 <= #[trigger] on[i] < t.len()
                    && t[on[i]] == m[i] by {
                    assert(at[0] < at[i + 1]);
                    assert(0 <= at[0]);
                    assert(h[at[i + 1]] == n[i + 1]);
                }
                assert forall|i: int, j: int| 0 <= i < j < on.len() implies #[trigger] on[i]
                    < #[trigger] on[j] by {
                    assert(at[i + 1] < at[j + 1]);
                }
                assert(spells(m, t, on));
            }
        } else {
            subsequences_are_found_in_order(n, t);
            if is_subsequence(n, h) {
                let at = choose|at: Seq<int>| #[trigger] spells(n, t, at);
                let on = Seq::new(n.len(), |i: int| at[i] + 1);
                assert forall|i: int| 0 <= i < on.len() implies 0 <= #[trigger] on[i] < h.len()
                    && h[on[i]] == n[i] by {
                    assert(t[at[i]] == n[i]);
                }
                assert(spells(n, h, on));
            }
            if exists|at: Seq<int>| #[trigger] spells(n, h, at) {
                let at = choose|at: Seq<int>| #[trigger] spells(n, h, at);
                let on = Seq::new(n.len(), |i: int| at[i] - 1);
                assert(0 <= at[0] && h[at[0]] == n[0]);
                assert forall|i: int| 0 <= i < on.len() implies 0 <= #[trigger] on[i] < t.len()
                    && t[on[i]] == n[i] by {
                    assert(h[at[i]] == n[i]);
                    if i > 0 {
                        assert(at[0] < at[i]);
                    }
                }
                assert forall|i: int, j: int| 0 <= i < j < on.len() implies #[trigger] on[i]
                    < #[trigger] on[j] by {
                    assert(at[i] < at[j]);
                }
                assert(spells(n, t, on));
            }
        }
    } else {
        assert forall|at: Seq<int>| !#[trigger] spells(n, h, at) by {
            if spells(n, h, at) {
                assert(0 <= at[0] < h.len());
            }
        }
    }
}

/// The commands that are shown are exactly those whose titles hold the query's
/// characters in order, whatever their case; without a query, all are. They keep
/// their order.
pub proof fn the_query_selects_commands(query: Seq<char>, n: int, i: int)
    requires
        0 <= i < n <= offered().len(),
    ensures
        found(offered(), query, n).contains(i as usize) <==> query.len() == 0 || is_subsequence(
            lowered(query),
            lowered(offered()[i].0),
        ),
        found(offered(), query, n).len() <= n,
        forall|x: int|
            0 <= x < found(offered(), query, n).len() ==> #[trigger] found(offered(), query, n)[x] < n,
        forall|x: int, y: int|
            0 <= x < y < found(offered(), query, n).len() ==> #[trigger] found(offered(), query, n)[x]
                < #[trigger] found(offered(), query, n)[y],
    decreases n,
{
    let all = found(offered(), query, n);
    let rest = found(offered(), query, n - 1);
    if n > 1 {
        if i < n - 1 {
            the_query_selects_commands(query, n - 1, i);
        } else {
            the_query_selects_commands(query, n - 1, 0);
        }
    } else {
        assert(rest =~= Seq::<usize>::empty());
    }
    let taken = query.len() == 0 || finds(query, offered()[n - 1].0);
    if taken {
        assert(all == rest.push((n - 1) as usize));
        assert(all[rest.len() as int] == n - 1);
        if i < n - 1 && rest.contains(i as usize) {
            let k = choose|k: int| 0 <= k < rest.len() && rest[k] == i as usize;
            assert(all[k] == i as usize);
        }
        if i < n - 1 && all.contains(i as usize) {
            let k = choose|k: int| 0 <= k < all.len() && all[k] == i as usize;
            assert(k < rest.len());
            assert(rest[k] == i as usize);
        }
        assert forall|x: int| 0 <= x < all.len() implies #[trigger] all[x] < n by {
            if x < rest.len() {
                assert(all[x] == rest[x]);
            }
        }
        assert forall|x: int, y: int| 0 <= x < y < all.len() implies #[trigger] all[x]
            < #[trigger] all[y] by {
            assert(all[x] == rest[x]);
            if y < rest.len() {
                assert(all[y] == rest[y]);
            }
        }
    } else {
        assert(all == rest);
        if i == n - 1 && all.contains(i as usize) {
            let k = choose|k: int| 0 <= k < all.len() && all[k] == i as usize;
            assert(rest[k] < n - 1);
        }
    }
}

/// What each title of the palette asks for.
pub proof fn titles_say_what_they_do(i: int)
    requires
        0 <= i < offered().len(),
    ensures
        offered().len() == 4,
        ({
            let (title, request) = offered()[i];
            &&& title[0] == 'W' <==> request == PaletteRequest::Ex(ExRequest::Save)
            &&& title[0] == 'T' <==> request is ToggleWhitespace
            &&& title.len() > 8 && title[0] == 'B' ==> (title[8] == 'n' <==> request
                == PaletteRequest::Ex(ExRequest::NextBuffer)) && (title[8] == 'p' <==> request
                == PaletteRequest::Ex(ExRequest::PrevBuffer))
        }),
{
    reveal_strlit("Write file");
    reveal_strlit("Toggle whitespace display");
    reveal_strlit("Buffer: next");
    reveal_strlit("Buffer: previous");
    assert("Write file"@[0] == 'W');
    assert("Toggle whitespace display"@[0] == 'T');
    assert("Buffer: next"@[0] == 'B' && "Buffer: next"@[8] == 'n');
    assert("Buffer: previous"@[0] == 'B' && "Buffer: previous"@[8] == 'p');
}

}

//! The command parser: from a raw line of text to a structured command.
//!
//! A line is split on whitespace; the first token, matched without regard to
//! ASCII case, selects the command family.  `add` and `remove` then scan the
//! remaining tokens for the first whole-token occurrence of their keyword
//! (`to`, `from`, case-sensitively): the tokens before it join into the
//! name, those after it into the department, so both may contain spaces.
//! The grammar is pinned down by the spec function `parse_spec`.

use vstd::prelude::*;

use crate::registry::Person;

verus! {

/// The whitespace that separates tokens.
pub open spec fn is_space(c: char) -> bool {
    c == ' ' || c == '\t' || c == '\n' || c == '\r' || c == '\u{000B}' || c == '\u{000C}'
}

/// The tokens of `s`, with `cur` the word under construction to the left.
pub open spec fn toks_from(s: Seq<char>, cur: Seq<char>) -> Seq<Seq<char>>
    decreases s.len(),
{
    if s.len() == 0 {
        if cur.len() == 0 {
            Seq::empty()
        } else {
            seq![cur]
        }
    } else if is_space(s[0]) {
        (if cur.len() == 0 {
            Seq::empty()
        } else {
            seq![cur]
        }) + toks_from(s.drop_first(), Seq::empty())
    } else {
        toks_from(s.drop_first(), cur.push(s[0]))
    }
}

/// The whitespace-separated tokens of a line: runs of whitespace collapse,
/// leading and trailing whitespace is dropped.
pub open spec fn tokens_of(s: Seq<char>) -> Seq<Seq<char>> {
    toks_from(s, Seq::empty())
}

/// The words joined back together with single spaces.
pub open spec fn join_words(ws: Seq<Seq<char>>) -> Seq<char>
    decreases ws.len(),
{
    if ws.len() == 0 {
        Seq::empty()
    } else if ws.len() == 1 {
        ws[0]
    } else {
        ws[0] + seq![' '] + join_words(ws.drop_first())
    }
}

/// The position of the first token equal to `kw`, or `toks.len()` when none
/// is.
pub open spec fn find_kw(toks: Seq<Seq<char>>, kw: Seq<char>) -> int
    decreases toks.len(),
{
    if toks.len() == 0 {
        0
    } else if toks[0] == kw {
        0
    } else {
        1 + find_kw(toks.drop_first(), kw)
    }
}

/// Where the name part ends: the position of the first keyword token, with 0
/// also standing for "no keyword found" — both cases are usage errors.
pub open spec fn name_end(toks: Seq<Seq<char>>, kw: Seq<char>) -> int {
    if find_kw(toks, kw) == toks.len() {
        0
    } else {
        find_kw(toks, kw)
    }
}

/// `c` is `k` itself or, where `k` is a lower-case ASCII letter, its
/// upper-case counterpart.
pub open spec fn ci_char(c: char, k: char) -> bool {
    c == k || (65 <= c as u32 <= 90 && c as u32 + 32 == k as u32)
}

/// `tok` equals the (lower-case ASCII) keyword `kw` up to ASCII case.
pub open spec fn ci_eq(tok: Seq<char>, kw: Seq<char>) -> bool {
    tok.len() == kw.len() && forall|i: int| 0 <= i < tok.len() ==> ci_char(#[trigger] tok[i], kw[i])
}

/// The usage message of the `add` or of the `remove` family.
pub open spec fn usage_msg(is_add: bool) -> Seq<char> {
    if is_add {
        "Usage: ADD <name> TO <department>"@
    } else {
        "Usage: REMOVE <name> FROM <department>"@
    }
}

/// What an `add` or `remove` line means, given its tokens after the command
/// word: the name before the first keyword token, the department after it,
/// or the error naming what is missing.
pub open spec fn parse_move(rest: Seq<Seq<char>>, kw: Seq<char>, is_add: bool) -> CmdModel {
    if rest.len() == 0 {
        CmdModel::Error { msg: "No name provided"@ }
    } else {
        let e = name_end(rest, kw);
        if e == 0 {
            CmdModel::Error { msg: usage_msg(is_add) }
        } else if rest.len() <= e + 1 {
            CmdModel::Error { msg: "No department provided"@ }
        } else {
            let nm = join_words(rest.subrange(0, e));
            let dp = join_words(rest.subrange(e + 1, rest.len() as int));
            if is_add {
                CmdModel::Add { name: nm, dept: dp }
            } else {
                CmdModel::Remove { name: nm, dept: dp }
            }
        }
    }
}

/// What a raw line means.
pub open spec fn parse_spec(line: Seq<char>) -> CmdModel {
    let t = tokens_of(line);
    if t.len() == 0 {
        CmdModel::Error { msg: "Invalid command"@ }
    } else if ci_eq(t[0], "add"@) {
        parse_move(t.drop_first(), "to"@, true)
    } else if ci_eq(t[0], "remove"@) {
        parse_move(t.drop_first(), "from"@, false)
    } else if ci_eq(t[0], "list"@) {
        if t.len() == 1 {
            CmdModel::List { selector: "all"@ }
        } else {
            CmdModel::List { selector: join_words(t.drop_first()) }
        }
    } else if ci_eq(t[0], "exit"@) {
        CmdModel::Exit
    } else {
        CmdModel::Error { msg: "Invalid command"@ }
    }
}

/// The abstract form of a structured command.
pub enum CmdModel {
    Add { name: Seq<char>, dept: Seq<char> },
    Remove { name: Seq<char>, dept: Seq<char> },
    List { selector: Seq<char> },
    Error { msg: Seq<char> },
    Exit,
}

/// A structured command, as the parser hands it to the dispatch loop.
#[derive(Debug, PartialEq, Eq)]
pub enum Command {
    Add(Person),
    Remove(Person),
    List(String),
    Error(String),
    Exit,
}

impl View for Command {
    type V = CmdModel;

    open spec fn view(&self) -> CmdModel {
        match self {
            Command::Add(p) => CmdModel::Add { name: p.name@, dept: p.department@ },
            Command::Remove(p) => CmdModel::Remove { name: p.name@, dept: p.department@ },
            Command::List(s) => CmdModel::List { selector: s@ },
            Command::Error(m) => CmdModel::Error { msg: m@ },
            Command::Exit => CmdModel::Exit,
        }
    }
}

/// `find_kw` points at the first occurrence of the keyword, where one is.
pub proof fn lemma_find_kw(toks: Seq<Seq<char>>, kw: Seq<char>)
    ensures
        0 <= find_kw(toks, kw) <= toks.len(),
        find_kw(toks, kw) < toks.len() ==> toks[find_kw(toks, kw)] == kw,
        forall|j: int| 0 <= j < find_kw(toks, kw) ==> #[trigger] toks[j] != kw,
    decreases toks.len(),
{
    if toks.len() > 0 && toks[0] != kw {
        let t = toks.drop_first();
        lemma_find_kw(t, kw);
        let f = find_kw(toks, kw);
        if f < toks.len() {
            assert(t[f - 1] == toks[f]);
        }
        assert forall|j: int| 0 <= j < f implies #[trigger] toks[j] != kw by {
            if j > 0 {
                assert(t[j - 1] == toks[j]);
            }
        }
    }
}

fn space_char(c: char) -> (r: bool)
    ensures
        r == is_space(c),
{
    c == ' ' || c == '\t' || c == '\n' || c == '\r' || c == '\u{000B}' || c == '\u{000C}'
}

/// Splits a line into its whitespace-separated tokens.
pub fn tokenize(input: &str) -> (r: Vec<String>)
    ensures
        r.deep_view() == tokens_of(input@),
{
    let n = input.unicode_len();
    let mut r: Vec<String> = Vec::new();
    let mut i: usize = 0;
    let mut start: usize = 0;
    proof {
        assert(input@.skip(0) =~= input@);
        assert(input@.subrange(0, 0) =~= Seq::<char>::empty());
    }
    loop
        invariant
            start <= i <= n,
            n == input@.len(),
            tokens_of(input@) == r.deep_view() + toks_from(
                input@.skip(i as int),
                input@.subrange(start as int, i as int),
            ),
        decreases n - i,
    {
        let ghost cur = input@.subrange(start as int, i as int);
        let ghost rest = input@.skip(i as int);
        if i == n {
            proof {
                assert(rest =~= Seq::<char>::empty());
            }
            if start < n {
                let w = input.substring_char(start, n).to_owned();
                let ghost r0 = r.deep_view();
                proof {
                    assert(toks_from(rest, cur) =~= seq![cur]);
                    assert(r0 + seq![cur] =~= r0.push(cur));
                }
                r.push(w);
                proof {
                    assert(r.deep_view() =~= r0.push(cur));
                }
            } else {
                proof {
                    assert(toks_from(rest, cur) =~= Seq::<Seq<char>>::empty());
                    assert(r.deep_view() + Seq::<Seq<char>>::empty() =~= r.deep_view());
                }
            }
            return r;
        }
        let c = input.get_char(i);
        proof {
            assert(rest[0] == c);
            assert(rest.drop_first() =~= input@.skip(i as int + 1));
        }
        if space_char(c) {
            if start < i {
                let w = input.substring_char(start, i).to_owned();
                let ghost r0 = r.deep_view();
                proof {
                    assert(toks_from(rest, cur) == seq![cur] + toks_from(
                        rest.drop_first(),
                        Seq::empty(),
                    ));
                    assert(r0 + (seq![cur] + toks_from(rest.drop_first(), Seq::empty())) =~= r0.push(
                        cur,
                    ) + toks_from(rest.drop_first(), Seq::empty()));
                }
                r.push(w);
                proof {
                    assert(r.deep_view() =~= r0.push(cur));
                }
            } else {
                proof {
                    assert(cur.len() == 0);
                    assert(toks_from(rest, cur) == Seq::<Seq<char>>::empty() + toks_from(
                        rest.drop_first(),
                        Seq::empty(),
                    ));
                    assert(r.deep_view() + (Seq::<Seq<char>>::empty() + toks_from(
                        rest.drop_first(),
                        Seq::empty(),
                    )) =~= r.deep_view() + toks_from(rest.drop_first(), Seq::empty()));
                }
            }
            proof {
                assert(input@.subrange(i as int + 1, i as int + 1) =~= Seq::<char>::empty());
            }
            start = i + 1;
        } else {
            proof {
                assert(cur.push(c) =~= input@.subrange(start as int, i as int + 1));
                assert(toks_from(rest, cur) == toks_from(rest.drop_first(), cur.push(c)));
            }
        }
        i = i + 1;
    }
}

/// Whether `tok` matches the lower-case ASCII keyword `kw` up to ASCII case.
fn token_is_keyword(tok: &str, kw: &str) -> (r: bool)
    ensures
        r == ci_eq(tok@, kw@),
{
    let tlen = tok.unicode_len();
    let klen = kw.unicode_len();
    if tlen != klen {
        return false;
    }
    let mut i: usize = 0;
    loop
        invariant
            i <= tlen,
            tlen == tok@.len(),
            klen == kw@.len(),
            tlen == klen,
            forall|j: int| 0 <= j < i ==> ci_char(#[trigger] tok@[j], kw@[j]),
        decreases tlen - i,
    {
        if i == tlen {
            return true;
        }
        let c = tok.get_char(i);
        let k = kw.get_char(i);
        if c == k {
        } else {
            let cu = c as u32;
            let ku = k as u32;
            if 65 <= cu && cu <= 90 && cu + 32 == ku {
            } else {
                assert(!ci_char(tok@[i as int], kw@[i as int]));
                return false;
            }
        }
        i = i + 1;
    }
}

/// Whether two string slices hold the same characters.
fn str_eq(a: &str, b: &str) -> (r: bool)
    ensures
        r == (a@ == b@),
{
    let sa = a.to_owned();
    let sb = b.to_owned();
    sa == sb
}

/// The copy of `tokens` from position `from` on.
fn tail_of(tokens: &Vec<String>, from: usize) -> (r: Vec<String>)
    requires
        from <= tokens.len(),
    ensures
        r.deep_view() == tokens.deep_view().subrange(from as int, tokens.len() as int),
        r@.len() == tokens.len() - from,
{
    let mut r: Vec<String> = Vec::new();
    let mut i: usize = from;
    proof {
        assert(tokens.deep_view().subrange(from as int, from as int) =~= Seq::<Seq<char>>::empty());
        assert(r.deep_view() =~= Seq::<Seq<char>>::empty());
    }
    loop
        invariant
            from <= i <= tokens.len(),
            r@.len() == i - from,
            r.deep_view() == tokens.deep_view().subrange(from as int, i as int),
        decreases tokens.len() - i,
    {
        if i == tokens.len() {
            return r;
        }
        r.push(tokens[i].clone());
        proof {
            assert(r.deep_view() =~= tokens.deep_view().subrange(from as int, i as int).push(
                tokens.deep_view()[i as int],
            ));
            assert(tokens.deep_view().subrange(from as int, i as int).push(
                tokens.deep_view()[i as int],
            ) =~= tokens.deep_view().subrange(from as int, i as int + 1));
        }
        i = i + 1;
    }
}

/// The position where the name part of an `add`/`remove` line ends: the
/// first whole token equal to `end_word`, with 0 also standing for "not
/// found".
pub fn get_name_end(tokens: &Vec<String>, end_word: &str) -> (r: usize)
    ensures
        r as int == name_end(tokens.deep_view(), end_word@),
{
    let ghost toks = tokens.deep_view();
    proof {
        lemma_find_kw(toks, end_word@);
    }
    let mut i: usize = 0;
    loop
        invariant
            i <= tokens.len(),
            toks == tokens.deep_view(),
            toks.len() == tokens.len(),
            forall|j: int| 0 <= j < i ==> #[trigger] toks[j] != end_word@,
        decreases tokens.len() - i,
    {
        if i == tokens.len() {
            proof {
                lemma_find_kw(toks, end_word@);
                if find_kw(toks, end_word@) < toks.len() {
                    assert(toks[find_kw(toks, end_word@)] == end_word@);
                }
                assert(name_end(toks, end_word@) == 0);
            }
            return 0;
        }
        if str_eq(tokens[i].as_str(), end_word) {
            proof {
                lemma_find_kw(toks, end_word@);
                assert(toks[i as int] == tokens@[i as int]@);
                let f = find_kw(toks, end_word@);
                if f < i {
                    assert(toks[f] == end_word@);
                }
                if f > i {
                    assert(toks[i as int] != end_word@);
                }
                assert(f == i);
            }
            return i;
        }
        proof {
            assert(toks[i as int] == tokens@[i as int]@);
        }
        i = i + 1;
    }
}

proof fn lemma_join_push(ws: Seq<Seq<char>>, w: Seq<char>)
    ensures
        join_words(ws.push(w)) == if ws.len() == 0 {
            w
        } else {
            join_words(ws) + seq![' '] + w
        },
    decreases ws.len(),
{
    let p = ws.push(w);
    if ws.len() == 0 {
        assert(p[0] == w);
    } else {
        lemma_join_push(ws.drop_first(), w);
        assert(ws.drop_first().push(w) =~= p.drop_first());
        assert(p[0] == ws[0]);
        if ws.len() == 1 {
            assert(ws.drop_first().len() == 0);
        } else {
            assert((ws[0] + seq![' '] + (join_words(ws.drop_first()) + seq![' '] + w)) =~= ((ws[0]
                + seq![' '] + join_words(ws.drop_first())) + seq![' '] + w));
        }
    }
}

/// Joins the tokens of `[from, to)` with single spaces.
fn join_range(tokens: &Vec<String>, from: usize, to: usize) -> (r: String)
    requires
        from <= to,
        to <= tokens.len(),
    ensures
        r@ == join_words(tokens.deep_view().subrange(from as int, to as int)),
{
    let mut r = String::new();
    let mut i: usize = from;
    proof {
        assert(tokens.deep_view().subrange(from as int, from as int) =~= Seq::<Seq<char>>::empty());
    }
    loop
        invariant
            from <= i <= to,
            to <= tokens.len(),
            r@ == join_words(tokens.deep_view().subrange(from as int, i as int)),
        decreases to - i,
    {
        if i == to {
            return r;
        }
        if i > from {
            r.append(" ");
        }
        r.append(tokens[i].as_str());
        proof {
            let prev = tokens.deep_view().subrange(from as int, i as int);
            let next = tokens.deep_view().subrange(from as int, i as int + 1);
            assert(prev.push(tokens.deep_view()[i as int]) =~= next);
            lemma_join_push(prev, tokens.deep_view()[i as int]);
            reveal_strlit(" ");
            assert(" "@ =~= seq![' ']);
            assert(tokens.deep_view()[i as int] == tokens@[i as int]@);
        }
        i = i + 1;
    }
}

/// Parses an `add` or `remove` line, given all its tokens including the
/// command word.
fn parse_membership(tokens: &Vec<String>, kw: &str, is_add: bool) -> (r: Command)
    requires
        tokens.len() >= 1,
    ensures
        r@ == parse_move(tokens.deep_view().drop_first(), kw@, is_add),
{
    let ghost rest_v = tokens.deep_view().drop_first();
    if tokens.len() == 1 {
        proof {
            assert(rest_v.len() == 0);
        }
        return Command::Error(String::from_str("No name provided"));
    }
    let rest = tail_of(tokens, 1);
    proof {
        assert(tokens.deep_view().subrange(1, tokens.len() as int) =~= rest_v);
        lemma_find_kw(rest_v, kw@);
    }
    let end_i = get_name_end(&rest, kw);
    if end_i == 0 {
        let msg = if is_add {
            String::from_str("Usage: ADD <name> TO <department>")
        } else {
            String::from_str("Usage: REMOVE <name> FROM <department>")
        };
        return Command::Error(msg);
    }
    proof {
        assert(end_i as int == find_kw(rest_v, kw@));
        assert(end_i < rest@.len());
    }
    if end_i + 1 >= rest.len() {
        return Command::Error(String::from_str("No department provided"));
    }
    let name = join_range(&rest, 0, end_i);
    let department = join_range(&rest, end_i + 1, rest.len());
    proof {
        assert(rest.deep_view().subrange(0, end_i as int) =~= rest_v.subrange(0, end_i as int));
        assert(rest.deep_view().subrange(end_i as int + 1, rest@.len() as int) =~= rest_v.subrange(
            end_i as int + 1,
            rest_v.len() as int,
        ));
    }
    if is_add {
        Command::Add(Person { name, department })
    } else {
        Command::Remove(Person { name, department })
    }
}

/// Parses one raw input line into a structured command.
pub fn parse_input(input: String) -> (r: Command)
    ensures
        r@ == parse_spec(input@),
{
    let tokens = tokenize(input.as_str());
    let ghost t = tokens_of(input@);
    if tokens.len() == 0 {
        return Command::Error(String::from_str("Invalid command"));
    }
    proof {
        assert(t[0] == tokens@[0]@);
        assert(t.drop_first() =~= tokens.deep_view().drop_first());
    }
    if token_is_keyword(tokens[0].as_str(), "add") {
        parse_membership(&tokens, "to", true)
    } else if token_is_keyword(tokens[0].as_str(), "remove") {
        parse_membership(&tokens, "from", false)
    } else if token_is_keyword(tokens[0].as_str(), "list") {
        if tokens.len() == 1 {
            Command::List(String::from_str("all"))
        } else {
            let which = join_range(&tokens, 1, tokens.len());
            proof {
                assert(tokens.deep_view().subrange(1, tokens.len() as int) =~= t.drop_first());
            }
            Command::List(which)
        }
    } else if token_is_keyword(tokens[0].as_str(), "exit") {
        Command::Exit
    } else {
        Command::Error(String::from_str("Invalid command"))
    }
}

} // verus!

use vstd::prelude::*;
use crate::text::chars_of;

verus! {

/// Characters that separate words.
pub open spec fn is_blank(c: char) -> bool {
    c == ' ' || c == '\t' || c == '\r'
}

/// Shell operators that end one command and start the next.
pub open spec fn is_separator(c: char) -> bool {
    c == ';' || c == '&' || c == '|' || c == '\n'
}

pub open spec fn is_quote(c: char) -> bool {
    c == '\'' || c == '"'
}

/// Where the lexer stands after reading a prefix of a line: the open quote,
/// the word being read, the finished words of the current command, and the
/// finished commands.
pub struct LexState {
    pub quote: Option<char>,
    pub cur: Seq<char>,
    pub words: Seq<Seq<char>>,
    pub segs: Seq<Seq<Seq<char>>>,
}

pub open spec fn end_word(st: LexState) -> LexState {
    if st.cur.len() > 0 {
        LexState { cur: Seq::empty(), words: st.words.push(st.cur), ..st }
    } else {
        st
    }
}

pub open spec fn end_segment(st: LexState) -> LexState {
    let e = end_word(st);
    LexState { words: Seq::empty(), segs: e.segs.push(e.words), ..e }
}

/// Reads one character. Inside quotes every character but the closing quote
/// belongs to the word; quotes themselves are dropped.
pub open spec fn lex_step(st: LexState, c: char) -> LexState {
    match st.quote {
        Some(q) => if c == q {
            LexState { quote: None, ..st }
        } else {
            LexState { cur: st.cur.push(c), ..st }
        },
        None => if is_quote(c) {
            LexState { quote: Some(c), ..st }
        } else if is_blank(c) {
            end_word(st)
        } else if is_separator(c) {
            end_segment(st)
        } else {
            LexState { cur: st.cur.push(c), ..st }
        },
    }
}

pub open spec fn lex_start() -> LexState {
    LexState { quote: None, cur: Seq::empty(), words: Seq::empty(), segs: Seq::empty() }
}

/// The state after reading the first `i` characters of `s`.
pub open spec fn lex_prefix(s: Seq<char>, i: nat) -> LexState
    decreases i,
{
    if i == 0 || i > s.len() {
        lex_start()
    } else {
        lex_step(lex_prefix(s, (i - 1) as nat), s[i - 1])
    }
}

/// The commands of a line, each as its words. A command whose quote is never
/// closed is malformed and left out.
pub open spec fn segments_of(s: Seq<char>) -> Seq<Seq<Seq<char>>> {
    let st = lex_prefix(s, s.len());
    if st.quote is Some {
        st.segs
    } else {
        end_segment(st).segs
    }
}

/// Splits a command line into commands at `;`, `&`, `|` and line breaks,
/// and each command into words, respecting single and double quotes.
pub fn split_segments(line: &str) -> (r: Vec<Vec<Vec<char>>>)
    ensures
        r.deep_view() == segments_of(line@),
{
    let s = chars_of(line);
    let mut quote: Option<char> = None;
    let mut cur: Vec<char> = Vec::new();
    let mut words: Vec<Vec<char>> = Vec::new();
    let mut segs: Vec<Vec<Vec<char>>> = Vec::new();
    let mut i: usize = 0;
    assert(words.deep_view() =~= Seq::<Seq<char>>::empty());
    assert(segs.deep_view() =~= Seq::<Seq<Seq<char>>>::empty());
    assert(cur@ =~= Seq::<char>::empty());
    while i < s.len()
        invariant
            s@ == line@,
            i <= s@.len(),
            (LexState { quote, cur: cur@, words: words.deep_view(), segs: segs.deep_view() })
                == lex_prefix(s@, i as nat),
        decreases s.len() - i,
    {
        let c = s[i];
        let ghost before = lex_prefix(s@, i as nat);
        let mut finish_word = false;
        let mut finish_segment = false;
        match quote {
            Some(q) => {
                if c == q {
                    quote = None;
                } else {
                    cur.push(c);
                }
            },
            None => {
                if c == '\'' || c == '"' {
                    quote = Some(c);
                } else if c == ' ' || c == '\t' || c == '\r' {
                    finish_word = true;
                } else if c == ';' || c == '&' || c == '|' || c == '\n' {
                    finish_word = true;
                    finish_segment = true;
                } else {
                    cur.push(c);
                }
            },
        }
        if finish_word && cur.len() > 0 {
            let ghost wd = words.deep_view();
            assert(cur.deep_view() =~= cur@);
            words.push(cur);
            cur = Vec::new();
            assert(words.deep_view() =~= wd.push(before.cur));
        }
        if finish_segment {
            let ghost sd = segs.deep_view();
            let ghost wd = words.deep_view();
            segs.push(words);
            words = Vec::new();
            assert(segs.deep_view() =~= sd.push(wd));
            assert(words.deep_view() =~= Seq::<Seq<char>>::empty());
        }
        i = i + 1;
        assert(lex_prefix(s@, i as nat) == lex_step(before, s@[i - 1]));
        assert((LexState { quote, cur: cur@, words: words.deep_view(), segs: segs.deep_view() })
            =~= lex_prefix(s@, i as nat));
    }
    if quote.is_none() {
        if cur.len() > 0 {
            let ghost wd = words.deep_view();
            let ghost cd = cur@;
            assert(cur.deep_view() =~= cd);
            words.push(cur);
            assert(words.deep_view() =~= wd.push(cd));
        }
        let ghost sd = segs.deep_view();
        let ghost wd = words.deep_view();
        segs.push(words);
        assert(segs.deep_view() =~= sd.push(wd));
    }
    segs
}

} // verus!

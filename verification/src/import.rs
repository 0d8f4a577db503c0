use vstd::prelude::*;
use vstd::string::StrSliceExecFns;
use vstd::string::StringExecFns;

use crate::error::Error;
use crate::graph::Graph;
use crate::graph::arc_pushed;
use crate::graph::connected;
use crate::graph::has_id;
use crate::graph::idx_of;
use crate::graph::VertexModel;
use crate::graph::markers_clear;
use crate::graph::symmetric;
use crate::graph::vert_inserted;
use crate::graph::wf;

verus! {

/// The tokenizer's state after reading some prefix of a line: the quoted
/// words already emitted, the word being gathered, whether a quote is open,
/// and whether a backslash is pending.
pub struct ScanState {
    pub words: Seq<Seq<char>>,
    pub word: Seq<char>,
    pub in_quote: bool,
    pub escape: bool,
}

/// The state every line starts in.
pub open spec fn scan_init() -> ScanState {
    ScanState { words: Seq::empty(), word: Seq::empty(), in_quote: false, escape: false }
}

/// One character moves the tokenizer one step. A backslash only arms the
/// escape. Inside quotes every other character joins the word. An unescaped
/// quote opens a word or closes it; closing emits the gathered word, without
/// the closing quote itself, while an escaped quote is kept literally and
/// toggles nothing. Characters outside quotes are ignored.
pub open spec fn scan_step(st: ScanState, c: char) -> ScanState {
    if c == '\\' {
        ScanState { words: st.words, word: st.word, in_quote: st.in_quote, escape: true }
    } else {
        let w = if st.in_quote {
            st.word.push(c)
        } else {
            st.word
        };
        if c == '"' {
            if st.escape {
                ScanState { words: st.words, word: w, in_quote: st.in_quote, escape: false }
            } else if st.in_quote {
                ScanState {
                    words: st.words.push(w.drop_last()),
                    word: Seq::empty(),
                    in_quote: false,
                    escape: false,
                }
            } else {
                ScanState { words: st.words, word: w, in_quote: true, escape: false }
            }
        } else {
            ScanState { words: st.words, word: w, in_quote: st.in_quote, escape: st.escape }
        }
    }
}

/// The tokenizer's state after the first `n` characters of `s`.
pub open spec fn scan_prefix(s: Seq<char>, n: int) -> ScanState
    decreases n,
{
    if n <= 0 {
        scan_init()
    } else {
        scan_step(scan_prefix(s, n - 1), s[n - 1])
    }
}

/// The quoted words of a whole line.
pub open spec fn line_words(s: Seq<char>) -> Seq<Seq<char>> {
    scan_prefix(s, s.len() as int).words
}

/// A quote opened on the line is never closed.
pub open spec fn line_unclosed(s: Seq<char>) -> bool {
    scan_prefix(s, s.len() as int).in_quote
}

/// Relies on `String`'s `FromIterator` impl over `char`: collecting an
/// iterator of characters yields the string of exactly those characters,
/// in order.
#[verifier::external_body]
fn chars_to_string(chars: &Vec<char>) -> (s: String)
    ensures
        s@ == chars@,
{
    chars.iter().copied().collect()
}

/// Splits one line of a graph description into its double-quoted words.
///
/// A quote preceded by a backslash neither opens nor closes a word; every
/// character between an opening and its closing quote joins the word; text
/// outside quotes is ignored. A quote left open at the end of the line is a
/// `FileWrong` error carrying `line_num`.
pub fn parse_a_line(line: &String, line_num: usize) -> (r: Result<Vec<String>, Error>)
    ensures
        r is Err <==> line_unclosed(line@),
        r matches Ok(words) ==> words@.len() == line_words(line@).len() && forall|i: int|
            0 <= i < words@.len() ==> (#[trigger] words@[i])@ == line_words(line@)[i],
        r matches Err(e) ==> e matches Error::FileWrong(n, msg) && n == line_num && msg@
            == "Quotation marks not match"@,
{
    let n_chars = line.as_str().unicode_len();
    let mut words: Vec<String> = Vec::new();
    let mut word: Vec<char> = Vec::new();
    let mut in_quote = false;
    let mut escape = false;
    let mut i: usize = 0;
    while i < n_chars
        invariant
            n_chars == line@.len(),
            i <= n_chars,
            scan_prefix(line@, i as int).in_quote == in_quote,
            scan_prefix(line@, i as int).escape == escape,
            scan_prefix(line@, i as int).word == word@,
            scan_prefix(line@, i as int).words.len() == words@.len(),
            forall|k: int|
                0 <= k < words@.len() ==> (#[trigger] words@[k])@ == scan_prefix(
                    line@,
                    i as int,
                ).words[k],
        decreases n_chars - i,
    {
        let ghost st = scan_prefix(line@, i as int);
        let c = line.as_str().get_char(i);
        if c == '\\' {
            escape = true;
        } else {
            if in_quote {
                word.push(c);
            }
            if c == '"' {
                if escape {
                    escape = false;
                } else if in_quote {
                    let _ = word.pop();
                    proof {
                        assert(word@ =~= st.word);
                        assert(word@ =~= st.word.push(c).drop_last());
                    }
                    let w = chars_to_string(&word);
                    words.push(w);
                    word.clear();
                    in_quote = false;
                } else {
                    in_quote = true;
                }
            }
        }
        proof {
            assert(scan_prefix(line@, i + 1) == scan_step(st, line@[i as int]));
        }
        i = i + 1;
    }
    if in_quote {
        return Err(Error::FileWrong(line_num, String::from_str("Quotation marks not match")));
    }
    Ok(words)
}

/// The store after inserting the first `n` of the given ids, in order, each
/// as an exit vertex.
pub open spec fn exits_inserted(gv: Seq<VertexModel>, words: Seq<Seq<char>>, n: int) -> Seq<
    VertexModel,
>
    decreases n,
{
    if n <= 0 {
        gv
    } else {
        vert_inserted(exits_inserted(gv, words, n - 1), words[n - 1], true)
    }
}

/// Reads the opening line of a graph description, whose quoted words name
/// the exits, and inserts each named vertex as an exit. The opening line is
/// line 1, which an unclosed quote reports.
pub fn parse_exits_line_and_insert(g: &mut Graph, exits_line: &String) -> (r: Result<(), Error>)
    requires
        wf(old(g)@),
    ensures
        wf(final(g)@),
        symmetric(old(g)@) ==> symmetric(final(g)@),
        markers_clear(old(g)@) ==> markers_clear(final(g)@),
        r is Err <==> line_unclosed(exits_line@),
        r matches Err(e) ==> e matches Error::FileWrong(n, msg) && n == 1 && final(g)@ == old(g)@,
        r is Ok ==> final(g)@ == exits_inserted(
            old(g)@,
            line_words(exits_line@),
            line_words(exits_line@).len() as int,
        ),
{
    let ghost g0 = g@;
    let words = match parse_a_line(exits_line, 1) {
        Ok(words) => words,
        Err(e) => {
            return Err(e);
        },
    };
    let ghost ws = line_words(exits_line@);
    let n = words.len();
    let mut j: usize = 0;
    while j < n
        invariant
            wf(g@),
            symmetric(g0) ==> symmetric(g@),
            markers_clear(g0) ==> markers_clear(g@),
            n == words@.len(),
            j <= n,
            words@.len() == ws.len(),
            forall|k: int| 0 <= k < words@.len() ==> (#[trigger] words@[k])@ == ws[k],
            g@ == exits_inserted(g0, ws, j as int),
        decreases n - j,
    {
        g.new_vert(&words[j], true);
        proof {
            assert(exits_inserted(g0, ws, j + 1) == vert_inserted(
                exits_inserted(g0, ws, j as int),
                ws[j as int],
                true,
            ));
        }
        j = j + 1;
    }
    Ok(())
}


/// The vertex just inserted is in the store.
proof fn lemma_vert_inserted_has(gv: Seq<VertexModel>, id: Seq<char>, is_exit: bool)
    ensures
        has_id(vert_inserted(gv, id, is_exit), id),
{
    let g1 = vert_inserted(gv, id, is_exit);
    if !has_id(gv, id) {
        assert(g1[gv.len() as int].id == id);
    }
}

/// Inserting a vertex never removes another.
proof fn lemma_vert_inserted_keeps(gv: Seq<VertexModel>, id2: Seq<char>, is_exit: bool, id: Seq<char>)
    requires
        has_id(gv, id),
    ensures
        has_id(vert_inserted(gv, id2, is_exit), id),
{
    let j = choose|j: int| 0 <= j < gv.len() && (#[trigger] gv[j].id) == id;
    assert(vert_inserted(gv, id2, is_exit)[j].id == id);
}

/// Splits one edge record into its three quoted parts: source id,
/// destination id and the distance text, which the caller decodes. A record
/// with any other number of words is a line-numbered error.
pub fn split_edge_line(line: &String, line_num: usize) -> (r: Result<
    (String, String, String),
    Error,
>)
    ensures
        r is Ok <==> !line_unclosed(line@) && line_words(line@).len() == 3,
        r matches Ok(words) ==> words.0@ == line_words(line@)[0] && words.1@ == line_words(line@)[1]
            && words.2@ == line_words(line@)[2],
        r matches Err(e) ==> e matches Error::FileWrong(n, msg) && n == line_num && msg@ == (
        if line_unclosed(line@) {
            "Quotation marks not match"@
        } else if line_words(line@).len() > 3 {
            "Too many words"@
        } else {
            "Too few words"@
        }),
{
    let mut words = match parse_a_line(line, line_num) {
        Ok(words) => words,
        Err(e) => {
            return Err(e);
        },
    };
    if words.len() > 3 {
        return Err(Error::FileWrong(line_num, String::from_str("Too many words")));
    }
    if words.len() < 3 {
        return Err(Error::FileWrong(line_num, String::from_str("Too few words")));
    }
    let a = words.remove(0);
    let b = words.remove(0);
    let c = words.remove(0);
    Ok((a, b, c))
}

/// Inserts one edge record whose distance is already decoded: both endpoint
/// vertices, as non-exits where new, and then their connection. A rejected
/// connection is a line-numbered error, but the two vertices stay inserted:
/// the record's vertex part has already taken effect, as it always did.
///
/// The store can never miss a vertex here, the endpoints having just been
/// inserted, so the one failure the connection step keeps is a rejected
/// edge.
pub fn insert_edge_record(
    g: &mut Graph,
    a: &String,
    b: &String,
    dist: u64,
    line_num: usize,
) -> (r: Result<(), Error>)
    requires
        wf(old(g)@),
    ensures
        wf(final(g)@),
        symmetric(old(g)@) ==> symmetric(final(g)@),
        markers_clear(old(g)@) ==> markers_clear(final(g)@),
        ({
            let g2 = vert_inserted(vert_inserted(old(g)@, a@, false), b@, false);
            let ia = idx_of(g2, a@);
            let ib = idx_of(g2, b@);
            &&& (r is Ok <==> a@ != b@ && !connected(g2, ia, ib) && !connected(g2, ib, ia))
            &&& final(g)@ == (if r is Ok {
                arc_pushed(arc_pushed(g2, ia, ib, dist), ib, ia, dist)
            } else {
                g2
            })
        }),
        r matches Err(e) ==> e matches Error::FileWrong(n, msg) && n == line_num && msg@ == (
        if a@ == b@ {
            "Edge pointing to itself"@
        } else {
            "Two edge have the same start and end"@
        }),
{
    let ghost gv0 = g@;
    g.new_vert(a, false);
    g.new_vert(b, false);
    let ghost g2 = g@;
    proof {
        lemma_vert_inserted_has(gv0, a@, false);
        lemma_vert_inserted_keeps(vert_inserted(gv0, a@, false), b@, false, a@);
        lemma_vert_inserted_has(vert_inserted(gv0, a@, false), b@, false);
        assert(has_id(g2, a@) && has_id(g2, b@));
    }
    match g.new_edge(a, b, dist) {
        Ok(()) => Ok(()),
        Err(Error::SelfEdge) => Err(
            Error::FileWrong(line_num, String::from_str("Edge pointing to itself")),
        ),
        Err(Error::DuplicateEdge) => Err(
            Error::FileWrong(line_num, String::from_str("Two edge have the same start and end")),
        ),
        Err(e) => {
            proof {
                assert(false);
            }
            Err(e)
        },
    }
}

} // verus!

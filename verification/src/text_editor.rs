//! Text helpers of the browser editor: keyword highlighting, tag wrapping
//! and Markdown rendering.
use vstd::prelude::*;
use pulldown_cmark::{html, Options, Parser};
use crate::text_util::{
    join, words, is_ws, trim, str_eq, text, push_char, split_whitespace, trim_string, lemma_join_push,
    lemma_words_shape, lemma_join_ends, lemma_trim_padded,
};

verus! {

/// The words `highlight_code` marks.
pub open spec fn is_keyword(w: Seq<char>) -> bool {
    w == "fn"@ || w == "let"@ || w == "if"@ || w == "else"@ || w == "return"@
}

/// A word as `highlight_code` shows it: a keyword in a blue span, any other
/// word as it is.
pub open spec fn marked(w: Seq<char>) -> Seq<char> {
    if is_keyword(w) {
        "<span style='color: blue;'>"@ + w + "</span>"@
    } else {
        w
    }
}

/// A word is shown in a blue span exactly when it is one of the five
/// keywords `fn`, `let`, `if`, `else` and `return`; every other word is
/// shown as it is.
pub proof fn marks_exactly_the_five_keywords(w: Seq<char>)
    ensures
        marked(w) == (if w == "fn"@ || w == "let"@ || w == "if"@ || w == "else"@ || w == "return"@ {
            "<span style='color: blue;'>"@ + w + "</span>"@
        } else {
            w
        }),
        marked("fn"@) == "<span style='color: blue;'>"@ + "fn"@ + "</span>"@,
        marked("let"@) == "<span style='color: blue;'>"@ + "let"@ + "</span>"@,
        marked("if"@) == "<span style='color: blue;'>"@ + "if"@ + "</span>"@,
        marked("else"@) == "<span style='color: blue;'>"@ + "else"@ + "</span>"@,
        marked("return"@) == "<span style='color: blue;'>"@ + "return"@ + "</span>"@,
{
}

/// Whether `w` is one of the keywords.
fn keyword(w: &str) -> (r: bool)
    ensures
        r == is_keyword(w@),
{
    str_eq(w, "fn") || str_eq(w, "let") || str_eq(w, "if") || str_eq(w, "else") || str_eq(w, "return")
}

/// A shown word starts and ends as a word does: not with whitespace.
proof fn lemma_marked_ends(w: Seq<char>)
    requires
        w.len() > 0,
        !is_ws(w[0]),
        !is_ws(w.last()),
    ensures
        marked(w).len() > 0,
        !is_ws(marked(w)[0]),
        !is_ws(marked(w).last()),
{
    reveal_strlit("<span style='color: blue;'>");
    reveal_strlit("</span>");
    if is_keyword(w) {
        let m = "<span style='color: blue;'>"@ + w + "</span>"@;
        assert(m[0] == '<');
        assert(m.last() == '>');
    }
}

/// The words of `input`, keywords in blue spans, separated by two spaces.
pub fn highlight_code(input: &str) -> (r: String)
    ensures
        r@ == join(words(input@).map_values(|w: Seq<char>| marked(w)), "  "@),
{
    let ws = split_whitespace(input);
    let ghost all = words(input@);
    let ghost marks = all.map_values(|w: Seq<char>| marked(w));
    let ghost pad = seq![' ', ' '];
    proof {
        reveal_strlit("  ");
        assert("  "@ =~= pad);
        lemma_words_shape(input@);
    }
    let mut output = String::new();
    let mut i: usize = 0;
    while i < ws.len()
        invariant
            ws@.map_values(|w: String| w@) == all,
            all == words(input@),
            marks == all.map_values(|w: Seq<char>| marked(w)),
            pad == seq![' ', ' '],
            i <= ws.len(),
            output@ == (if i == 0 { Seq::<char>::empty() } else { join(marks.take(i as int), pad) + pad }),
        decreases ws.len() - i,
    {
        let word = ws[i].as_str();
        proof {
            assert(word@ == all[i as int]);
        }
        if keyword(word) {
            output.append("<span style='color: blue;'>");
            output.append(word);
            output.append("</span> ");
        } else {
            output.append(word);
            output.append(" ");
        }
        push_char(&mut output, ' ');
        proof {
            reveal_strlit("<span style='color: blue;'>");
            reveal_strlit("</span> ");
            reveal_strlit("</span>");
            reveal_strlit(" ");
            let before = marks.take(i as int);
            lemma_join_push(before, pad, marks[i as int]);
            assert(before.push(marks[i as int]) =~= marks.take(i + 1));
            assert(output@ =~= join(marks.take(i + 1), pad) + pad);
        }
        i = i + 1;
    }
    proof {
        assert(marks.take(i as int) =~= marks);
        if marks.len() > 0 {
            assert forall|j: int| 0 <= j < marks.len() implies #[trigger] marks[j].len() > 0 && !is_ws(marks[j][0])
                && !is_ws(marks[j].last()) by {
                let w = all[j];
                assert(w.len() > 0);
                assert(!is_ws(w[0]));
                assert(!is_ws(w[w.len() - 1]));
                lemma_marked_ends(w);
            }
            lemma_join_ends(marks, pad);
            assert(marks[0].len() > 0 && !is_ws(marks[0][0]));
            assert(marks[marks.len() - 1].len() > 0 && !is_ws(marks.last().last()));
            lemma_trim_padded(join(marks, pad));
        } else {
            assert(trim(Seq::<char>::empty()) =~= Seq::<char>::empty());
        }
    }
    trim_string(output.as_str())
}

/// `text` between an opening and a closing `tag`: `<tag>text</tag>`.
pub fn format_text(text: &str, tag: &str) -> (r: String)
    ensures
        r@ == "<"@ + tag@ + ">"@ + text@ + "</"@ + tag@ + ">"@,
{
    let mut out = String::new();
    out.append("<");
    out.append(tag);
    out.append(">");
    out.append(text);
    out.append("</");
    out.append(tag);
    out.append(">");
    out
}

/// The HTML that `pulldown_cmark` renders the Markdown text `input` to,
/// with none of its extensions switched on.
pub uninterp spec fn markdown_html(input: Seq<char>) -> Seq<char>;

/// `pulldown_cmark::html::push_html` of `Parser::new_ext(input,
/// Options::empty())` into an empty string. Claimed: the result is
/// `markdown_html` of the characters of `input`, a function of them alone;
/// what CommonMark makes of a text is not stated. The parser holds
/// internal `unwrap`s and `expect`s; that none of them can fire on any text
/// is not stated either, since its source does not settle it.
#[verifier::external_body]
fn render_markdown(input: &str) -> (r: String)
    ensures
        r@ == markdown_html(input@),
{
    let mut output = String::new();
    html::push_html(&mut output, Parser::new_ext(input, Options::empty()));
    output
}

/// The Markdown text `input` rendered as HTML.
pub fn format_markdown(input: &str) -> (r: String)
    ensures
        r@ == markdown_html(input@),
{
    render_markdown(input)
}

} // verus!

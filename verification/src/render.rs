//! Rendering a transcript as an HTML page.
//!
//! Each message's content is converted from lightweight markup to an HTML
//! fragment; the fragments are joined with a newline, in transcript order,
//! and placed at the one substitution point of a fixed page template.

use vstd::prelude::*;
use vstd::string::StringExecFns;

use crate::message::{views, Message, MessageView};

verus! {

/// What `markdown::to_html` returns for the given markup text: a function
/// of the text alone.
pub uninterp spec fn html_of(text: Seq<char>) -> Seq<char>;

/// Relies on markdown::to_html: converts one block of lightweight markup to
/// an HTML fragment; total, and deterministic in the input text.
#[verifier::external_body]
fn markup_to_html(text: &str) -> (r: String)
    ensures
        r@ == html_of(text@),
{
    markdown::to_html(text)
}

/// What precedes the rendered transcript in the page document.
pub open spec fn page_prefix() -> Seq<char> {
    "<!DOCTYPE html>\n<html>\n<head>\n<meta charset=\"utf-8\">\n<meta name=\"viewport\" content=\"width=device-width, initial-scale=1.0\">\n<title>Shared transcript</title>\n<style>body{margin:2rem auto;max-width:42rem;padding:0 1rem;font-family:sans-serif;line-height:1.5;color:#1f2937}pre{background:#f3f4f6;padding:1rem;overflow-x:auto}code{background:#f3f4f6}</style>\n</head>\n<body>\n<main>\n"@
}

/// What follows the rendered transcript in the page document.
pub open spec fn page_suffix() -> Seq<char> {
    "\n</main>\n</body>\n</html>\n"@
}

/// The fragments of all messages, each rendered from markup to HTML, joined
/// with a newline, in transcript order.
pub open spec fn rendered_fragments(ms: Seq<MessageView>) -> Seq<char>
    decreases ms.len(),
{
    if ms.len() == 0 {
        Seq::empty()
    } else if ms.len() == 1 {
        html_of(ms[0].content)
    } else {
        html_of(ms[0].content) + seq!['\n'] + rendered_fragments(ms.drop_first())
    }
}

/// The complete HTML document for a transcript.
pub open spec fn spec_page(ms: Seq<MessageView>) -> Seq<char> {
    page_prefix() + rendered_fragments(ms) + page_suffix()
}

proof fn lemma_rendered_fragments_push(ms: Seq<MessageView>, m: MessageView)
    ensures
        rendered_fragments(ms.push(m)) == if ms.len() == 0 {
            html_of(m.content)
        } else {
            rendered_fragments(ms) + seq!['\n'] + html_of(m.content)
        },
    decreases ms.len(),
{
    let ext = ms.push(m);
    if ms.len() == 0 {
        assert(ext.len() == 1);
        assert(ext[0] == m);
    } else if ms.len() == 1 {
        assert(ext.len() == 2);
        assert(ext[0] == ms[0]);
        assert(ext.drop_first() =~= seq![m]);
        assert(rendered_fragments(seq![m]) == html_of(m.content));
        assert(html_of(ms[0].content) + seq!['\n'] + html_of(m.content) =~= rendered_fragments(ms)
            + seq!['\n'] + html_of(m.content));
    } else {
        assert(ext[0] == ms[0]);
        assert(ext.drop_first() =~= ms.drop_first().push(m));
        lemma_rendered_fragments_push(ms.drop_first(), m);
        assert(html_of(ext[0].content) + seq!['\n'] + (rendered_fragments(ms.drop_first())
            + seq!['\n'] + html_of(m.content)) =~= (html_of(ms[0].content) + seq!['\n']
            + rendered_fragments(ms.drop_first())) + seq!['\n'] + html_of(m.content));
    }
}

/// Renders a transcript into a complete HTML page: each message's content
/// converted from markup, the fragments joined in order, inside the fixed
/// template.
pub fn render_page(msgs: &Vec<Message>) -> (r: String)
    ensures
        r@ == spec_page(views(msgs@)),
{
    let mut body = String::new();
    let mut k: usize = 0;
    proof {
        assert(views(msgs@.take(0)) =~= Seq::<MessageView>::empty());
    }
    while k < msgs.len()
        invariant
            k <= msgs.len(),
            body@ == rendered_fragments(views(msgs@.take(k as int))),
        decreases msgs.len() - k,
    {
        let ghost done = views(msgs@.take(k as int));
        if k > 0 {
            body.append("\n");
            proof {
                reveal_strlit("\n");
                assert("\n"@ =~= seq!['\n']);
            }
        }
        let fragment = markup_to_html(msgs[k].content.as_str());
        body.append(fragment.as_str());
        proof {
            lemma_rendered_fragments_push(done, msgs@[k as int]@);
            assert(views(msgs@.take(k as int + 1)) =~= done.push(msgs@[k as int]@));
            if k == 0 {
                assert(done.len() == 0);
                assert(body@ =~= rendered_fragments(views(msgs@.take(k as int + 1))));
            } else {
                assert(done.len() > 0);
                assert(body@ =~= rendered_fragments(views(msgs@.take(k as int + 1))));
            }
        }
        k = k + 1;
    }
    proof {
        assert(msgs@.take(msgs@.len() as int) =~= msgs@);
    }
    let mut page = String::from_str(
        "<!DOCTYPE html>\n<html>\n<head>\n<meta charset=\"utf-8\">\n<meta name=\"viewport\" content=\"width=device-width, initial-scale=1.0\">\n<title>Shared transcript</title>\n<style>body{margin:2rem auto;max-width:42rem;padding:0 1rem;font-family:sans-serif;line-height:1.5;color:#1f2937}pre{background:#f3f4f6;padding:1rem;overflow-x:auto}code{background:#f3f4f6}</style>\n</head>\n<body>\n<main>\n",
    );
    page.append(body.as_str());
    page.append("\n</main>\n</body>\n</html>\n");
    page
}

/// Law (idempotent rendering): the page is a function of the transcript's
/// value alone, so rendering the same stored transcript twice, with no write
/// in between, yields the same document both times.
pub proof fn lemma_page_deterministic(a: Seq<MessageView>, b: Seq<MessageView>)
    requires
        a == b,
    ensures
        spec_page(a) == spec_page(b),
{
}

} // verus!

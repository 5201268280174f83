//! The mail that tells about an incident.

use vstd::prelude::*;

use crate::lists;
use crate::loops::sentinel;
use crate::loops::sentinel::ApiErrorHit;
use crate::package;
use crate::text;

verus! {

// ---- pieces ---------------------------------------------------------------

/// What stands for a character in HTML.
pub open spec fn html_escape(c: char) -> Seq<char> {
    if c == '&' {
        "&amp;"@
    } else if c == '<' {
        "&lt;"@
    } else if c == '>' {
        "&gt;"@
    } else if c == '"' {
        "&quot;"@
    } else {
        seq![c]
    }
}

/// `html_escape` as a value.
pub open spec fn html_escapes() -> spec_fn(char) -> Seq<char> {
    |c: char| html_escape(c)
}

/// A text as HTML.
pub open spec fn html(s: Seq<char>) -> Seq<char> {
    text::expanded(s, html_escapes())
}

/// A text as HTML.
pub fn esc_html(s: &str) -> (r: String)
    ensures
        r@ == html(s@),
{
    let v = text::chars_of(s);
    let mut r = String::new();
    let mut i: usize = 0;
    assert(v@.take(0) =~= Seq::empty());
    while i < v.len()
        invariant
            i <= v@.len(),
            v@ == s@,
            r@ == html(s@.take(i as int)),
        decreases v@.len() - i,
    {
        let c = v[i];
        assert(s@.take(i + 1).drop_last() =~= s@.take(i as int));
        if c == '&' {
            r.append("&amp;");
        } else if c == '<' {
            r.append("&lt;");
        } else if c == '>' {
            r.append("&gt;");
        } else if c == '"' {
            r.append("&quot;");
        } else {
            r.push(c);
        }
        assert(r@ =~= html(s@.take(i + 1)));
        i = i + 1;
    }
    assert(s@.take(i as int) =~= s@);
    r
}

/// No text can open or close a tag or end an attribute once it is HTML.
pub proof fn html_holds_no_markup(s: Seq<char>)
    ensures
        forall|i: int|
            0 <= i < html(s).len() ==> #[trigger] html(s)[i] != '<' && html(s)[i] != '>' && html(
                s,
            )[i] != '"',
    decreases s.len(),
{
    reveal_strlit("&amp;");
    reveal_strlit("&lt;");
    reveal_strlit("&gt;");
    reveal_strlit("&quot;");
    if s.len() > 0 {
        html_holds_no_markup(s.drop_last());
        let a = html(s.drop_last());
        let b = html_escape(s.last());
        assert(html(s) == a + b);
        assert forall|i: int| 0 <= i < html(s).len() implies #[trigger] html(s)[i] != '<' && html(
            s,
        )[i] != '>' && html(s)[i] != '"' by {
            if i < a.len() {
                assert(html(s)[i] == a[i]);
            } else {
                assert(html(s)[i] == b[i - a.len()]);
            }
        }
    }
}

/// Whether a link that stands in a sentence does not end with this character.
pub open spec fn trails(c: char) -> bool {
    c == '.' || c == ',' || c == ')' || c == ']' || c == '"' || c == '\''
}

/// A link without what follows it in its sentence.
pub open spec fn link_of(word: Seq<char>) -> Seq<char>
    decreases word.len(),
{
    if word.len() > 0 && trails(word.last()) {
        link_of(word.drop_last())
    } else {
        word
    }
}

/// Whether a word is a link.
pub open spec fn is_link(word: Seq<char>) -> bool {
    text::begins(word, "http://"@) || text::begins(word, "https://"@)
}

/// The links among words, each once, in their order.
pub open spec fn links_in(words: Seq<Seq<char>>) -> Seq<Seq<char>>
    decreases words.len(),
{
    if words.len() == 0 {
        Seq::empty()
    } else {
        let before = links_in(words.drop_last());
        if is_link(words.last()) && !before.contains(link_of(words.last())) {
            before.push(link_of(words.last()))
        } else {
            before
        }
    }
}

/// The first `max` links of a text, each once.
pub open spec fn links_of(s: Seq<char>, max: int) -> Seq<Seq<char>> {
    let all = links_in(text::words_of(s));
    if max >= all.len() {
        all
    } else {
        all.take(max)
    }
}

/// The links among the first words are the first links.
proof fn lemma_links_prefix(words: Seq<Seq<char>>, n: int)
    requires
        0 <= n <= words.len(),
    ensures
        links_in(words.take(n)).len() <= links_in(words).len(),
        links_in(words).take(links_in(words.take(n)).len() as int) == links_in(words.take(n)),
    decreases words.len(),
{
    if n == words.len() {
        assert(words.take(n) =~= words);
        assert(links_in(words).take(links_in(words).len() as int) =~= links_in(words));
    } else {
        let w = words.drop_last();
        lemma_links_prefix(w, n);
        assert(w.take(n) =~= words.take(n));
        let k = links_in(words.take(n)).len() as int;
        assert(links_in(words).take(k) =~= links_in(w).take(k));
    }
}

/// A link without what follows it in its sentence.
fn strip_link(word: &str) -> (r: String)
    ensures
        r@ == link_of(word@),
{
    let v = text::chars_of(word);
    let mut n: usize = v.len();
    assert(word@.take(n as int) =~= word@);
    while n > 0 && (v[n - 1] == '.' || v[n - 1] == ',' || v[n - 1] == ')' || v[n - 1] == ']' || v[n
        - 1] == '"' || v[n - 1] == '\'')
        invariant
            n <= v@.len(),
            v@ == word@,
            link_of(word@) == link_of(word@.take(n as int)),
        decreases n,
    {
        assert(word@.take(n as int).drop_last() =~= word@.take(n - 1));
        n = n - 1;
    }
    let r = text::string_of(&v, 0, n);
    assert(r@ =~= word@.take(n as int));
    r
}

/// The first `max` links of a text, each once.
pub fn first_urls(s: &str, max: usize) -> (r: Vec<String>)
    ensures
        text::texts(r@) == links_of(s@, max as int),
{
    let words = text::words(s);
    let ghost all = text::words_of(s@);
    let mut out: Vec<String> = Vec::new();
    let mut i: usize = 0;
    assert(all.take(0) =~= Seq::empty());
    assert(text::texts(out@) =~= Seq::empty());
    while i < words.len() && out.len() < max
        invariant
            i <= words@.len(),
            all == text::words_of(s@),
            text::texts(words@) == all,
            out.len() <= max,
            text::texts(out@) == links_in(all.take(i as int)),
        decreases words@.len() - i,
    {
        let ghost was = out@;
        assert(all.take(i + 1).drop_last() =~= all.take(i as int));
        assert(all.take(i + 1).last() == all[i as int]);
        assert(all[i as int] == words@[i as int]@);
        let word = words[i].as_str();
        if text::starts_with(word, "http://") || text::starts_with(word, "https://") {
            let link = strip_link(word);
            if !lists::lists(&out, link.as_str()) {
                out.push(link);
                proof {
                    text::lemma_texts_push(was, out@.last());
                }
            }
        }
        i = i + 1;
    }
    proof {
        lemma_links_prefix(all, i as int);
        if i == words@.len() {
            assert(all.take(i as int) =~= all);
            assert(links_in(all).take(links_in(all).len() as int) =~= links_in(all));
        }
        assert(text::texts(out@) =~= links_of(s@, max as int));
    }
    out
}

// ---- a mail ---------------------------------------------------------------

/// What a mail says.
pub struct MailParts {
    /// The colour of its header.
    pub accent: String,
    pub kicker: String,
    pub title: String,
    pub intro: String,
    /// Details, each with its name.
    pub kv: Vec<(String, String)>,
    /// A block of code with its caption.
    pub code: Option<(String, String)>,
    /// What to do.
    pub steps: Vec<String>,
    /// Captions and where they lead.
    pub links: Vec<(String, String)>,
    pub footer: String,
}

/// A pair of texts that may be missing.
pub open spec fn opt_pair(p: Option<(String, String)>) -> Option<(Seq<char>, Seq<char>)> {
    match p {
        Some(p) => Some(lists::pair(p)),
        None => None,
    }
}

/// The details of a mail in HTML.
pub open spec fn kv_rows(v: Seq<(Seq<char>, Seq<char>)>) -> Seq<char>
    decreases v.len(),
{
    if v.len() == 0 {
        Seq::empty()
    } else {
        kv_rows(v.drop_last())
            + "<tr><td style=\"padding:5px 0;color:#5b6472;font-size:13px;width:130px;vertical-align:top;\">"@
            + html(v.last().0)
            + "</td><td style=\"padding:5px 0;color:#1a1f2b;font-size:13px;font-family:SFMono-Regular,Consolas,monospace;word-break:break-all;\">"@
            + html(v.last().1) + "</td></tr>"@
    }
}

/// The table of details in HTML.
pub open spec fn kv_html(v: Seq<(Seq<char>, Seq<char>)>) -> Seq<char> {
    if v.len() == 0 {
        Seq::empty()
    } else {
        "<tr><td style=\"padding:4px 28px 8px;\"><table role=\"presentation\" width=\"100%\" cellpadding=\"0\" cellspacing=\"0\">"@
            + kv_rows(v) + "</table></td></tr>"@
    }
}

/// A block of code in HTML.
pub open spec fn code_html(c: Option<(Seq<char>, Seq<char>)>) -> Seq<char> {
    match c {
        Some(c) => "<tr><td style=\"padding:12px 28px;\"><div style=\"color:#5b6472;font-size:12px;margin-bottom:6px;\">"@
            + html(c.0)
            + "</div><div style=\"background:#0f1420;color:#c8d3e6;font-family:SFMono-Regular,Consolas,monospace;font-size:13px;padding:12px 14px;border-radius:8px;white-space:pre-wrap;word-break:break-all;\">"@
            + html(c.1) + "</div></td></tr>"@,
        None => Seq::empty(),
    }
}

/// What to do, numbered from one, in HTML.
pub open spec fn step_rows(v: Seq<Seq<char>>, accent: Seq<char>) -> Seq<char>
    decreases v.len(),
{
    if v.len() == 0 {
        Seq::empty()
    } else {
        step_rows(v.drop_last(), accent)
            + "<tr><td style=\"padding:4px 8px 4px 0;vertical-align:top;color:"@ + accent
            + ";font-weight:700;font-size:14px;\">"@ + text::decimal(v.len())
            + ".</td><td style=\"padding:4px 0;color:#1a1f2b;font-size:14px;line-height:1.5;\">"@
            + html(v.last()) + "</td></tr>"@
    }
}

/// The table of what to do in HTML.
pub open spec fn steps_html(v: Seq<Seq<char>>, accent: Seq<char>) -> Seq<char> {
    if v.len() == 0 {
        Seq::empty()
    } else {
        "<tr><td style=\"padding:8px 28px;\"><div style=\"color:#5b6472;font-size:12px;text-transform:uppercase;letter-spacing:.08em;margin-bottom:8px;\">What to do</div><table role=\"presentation\" cellpadding=\"0\" cellspacing=\"0\">"@
            + step_rows(v, accent) + "</table></td></tr>"@
    }
}

/// Links as buttons.
pub open spec fn buttons(v: Seq<(Seq<char>, Seq<char>)>, accent: Seq<char>) -> Seq<char>
    decreases v.len(),
{
    if v.len() == 0 {
        Seq::empty()
    } else {
        buttons(v.drop_last(), accent) + "<a href=\""@ + html(v.last().1)
            + "\" style=\"display:inline-block;margin:6px 8px 6px 0;padding:9px 16px;background:"@
            + accent
            + ";color:#ffffff;text-decoration:none;border-radius:8px;font-size:13px;font-weight:600;\">"@
            + html(v.last().0) + "</a>"@
    }
}

/// The row of links in HTML.
pub open spec fn links_html(v: Seq<(Seq<char>, Seq<char>)>, accent: Seq<char>) -> Seq<char> {
    if v.len() == 0 {
        Seq::empty()
    } else {
        "<tr><td style=\"padding:6px 28px 12px;\">"@ + buttons(v, accent) + "</td></tr>"@
    }
}

/// A mail in HTML.
pub open spec fn html_of(m: MailParts) -> Seq<char> {
    "<!doctype html><html><body style=\"margin:0;padding:0;background:#f4f5f7;\"><div style=\"display:none;max-height:0;overflow:hidden;opacity:0;\">"@
        + html(m.intro@)
        + "</div><table role=\"presentation\" width=\"100%\" cellpadding=\"0\" cellspacing=\"0\" style=\"background:#f4f5f7;padding:24px 12px;\"><tr><td align=\"center\"><table role=\"presentation\" width=\"600\" cellpadding=\"0\" cellspacing=\"0\" style=\"width:600px;max-width:600px;background:#ffffff;border-radius:12px;overflow:hidden;box-shadow:0 1px 3px rgba(16,24,40,.1);font-family:-apple-system,'Segoe UI',Roboto,Helvetica,Arial,sans-serif;\"><tr><td style=\"background:"@
        + m.accent@
        + ";padding:20px 28px;\"><div style=\"color:rgba(255,255,255,.82);font-size:11px;letter-spacing:.12em;text-transform:uppercase;font-weight:700;\">"@
        + html(m.kicker@)
        + "</div><div style=\"color:#ffffff;font-size:21px;font-weight:700;margin-top:5px;line-height:1.25;\">"@
        + html(m.title@)
        + "</div></td></tr><tr><td style=\"padding:22px 28px 6px;color:#1a1f2b;font-size:15px;line-height:1.55;\">"@
        + html(m.intro@) + "</td></tr>"@ + kv_html(lists::pairs(m.kv@)) + code_html(opt_pair(m.code))
        + steps_html(text::texts(m.steps@), m.accent@) + links_html(lists::pairs(m.links@), m.accent@)
        + "<tr><td style=\"padding:16px 28px 24px;border-top:1px solid #eceef2;color:#8a94a6;font-size:12px;line-height:1.5;\">"@
        + html(m.footer@) + "</td></tr></table></td></tr></table></body></html>"@
}

/// The table of details in HTML.
fn show_kv(v: &Vec<(String, String)>) -> (r: String)
    ensures
        r@ == kv_html(lists::pairs(v@)),
{
    let mut r = String::new();
    if v.len() == 0 {
        return r;
    }
    let ghost all = lists::pairs(v@);
    let mut rows = String::new();
    let mut i: usize = 0;
    assert(all.take(0) =~= Seq::empty());
    while i < v.len()
        invariant
            i <= v@.len(),
            all == lists::pairs(v@),
            rows@ == kv_rows(all.take(i as int)),
        decreases v@.len() - i,
    {
        assert(all.take(i + 1).drop_last() =~= all.take(i as int));
        assert(all.take(i + 1).last() == lists::pair(v@[i as int]));
        rows.append(
            "<tr><td style=\"padding:5px 0;color:#5b6472;font-size:13px;width:130px;vertical-align:top;\">",
        );
        rows.append(esc_html(v[i].0.as_str()).as_str());
        rows.append(
            "</td><td style=\"padding:5px 0;color:#1a1f2b;font-size:13px;font-family:SFMono-Regular,Consolas,monospace;word-break:break-all;\">",
        );
        rows.append(esc_html(v[i].1.as_str()).as_str());
        rows.append("</td></tr>");
        i = i + 1;
    }
    assert(all.take(i as int) =~= all);
    r = String::from_str(
        "<tr><td style=\"padding:4px 28px 8px;\"><table role=\"presentation\" width=\"100%\" cellpadding=\"0\" cellspacing=\"0\">",
    );
    r.append(rows.as_str());
    r.append("</table></td></tr>");
    r
}

/// A block of code in HTML.
fn show_code(c: &Option<(String, String)>) -> (r: String)
    ensures
        r@ == code_html(opt_pair(*c)),
{
    match c {
        Some(c) => {
            let mut r = String::from_str(
                "<tr><td style=\"padding:12px 28px;\"><div style=\"color:#5b6472;font-size:12px;margin-bottom:6px;\">",
            );
            r.append(esc_html(c.0.as_str()).as_str());
            r.append(
                "</div><div style=\"background:#0f1420;color:#c8d3e6;font-family:SFMono-Regular,Consolas,monospace;font-size:13px;padding:12px 14px;border-radius:8px;white-space:pre-wrap;word-break:break-all;\">",
            );
            r.append(esc_html(c.1.as_str()).as_str());
            r.append("</div></td></tr>");
            r
        },
        None => String::new(),
    }
}

/// The table of what to do in HTML.
fn show_steps(v: &Vec<String>, accent: &str) -> (r: String)
    ensures
        r@ == steps_html(text::texts(v@), accent@),
{
    let mut r = String::new();
    if v.len() == 0 {
        return r;
    }
    let ghost all = text::texts(v@);
    let mut rows = String::new();
    let mut i: usize = 0;
    assert(all.take(0) =~= Seq::empty());
    while i < v.len()
        invariant
            i <= v.len(),
            all == text::texts(v@),
            rows@ == step_rows(all.take(i as int), accent@),
        decreases v@.len() - i,
    {
        assert(all.take(i + 1).drop_last() =~= all.take(i as int));
        assert(all.take(i + 1).last() == v@[i as int]@);
        rows.append("<tr><td style=\"padding:4px 8px 4px 0;vertical-align:top;color:");
        rows.append(accent);
        rows.append(";font-weight:700;font-size:14px;\">");
        rows.append(text::show_usize(i + 1).as_str());
        rows.append(
            ".</td><td style=\"padding:4px 0;color:#1a1f2b;font-size:14px;line-height:1.5;\">",
        );
        rows.append(esc_html(v[i].as_str()).as_str());
        rows.append("</td></tr>");
        i = i + 1;
    }
    assert(all.take(i as int) =~= all);
    r = String::from_str(
        "<tr><td style=\"padding:8px 28px;\"><div style=\"color:#5b6472;font-size:12px;text-transform:uppercase;letter-spacing:.08em;margin-bottom:8px;\">What to do</div><table role=\"presentation\" cellpadding=\"0\" cellspacing=\"0\">",
    );
    r.append(rows.as_str());
    r.append("</table></td></tr>");
    r
}

/// The row of links in HTML.
fn show_links(v: &Vec<(String, String)>, accent: &str) -> (r: String)
    ensures
        r@ == links_html(lists::pairs(v@), accent@),
{
    let mut r = String::new();
    if v.len() == 0 {
        return r;
    }
    let ghost all = lists::pairs(v@);
    let mut rows = String::new();
    let mut i: usize = 0;
    assert(all.take(0) =~= Seq::empty());
    while i < v.len()
        invariant
            i <= v@.len(),
            all == lists::pairs(v@),
            rows@ == buttons(all.take(i as int), accent@),
        decreases v@.len() - i,
    {
        assert(all.take(i + 1).drop_last() =~= all.take(i as int));
        assert(all.take(i + 1).last() == lists::pair(v@[i as int]));
        rows.append("<a href=\"");
        rows.append(esc_html(v[i].1.as_str()).as_str());
        rows.append(
            "\" style=\"display:inline-block;margin:6px 8px 6px 0;padding:9px 16px;background:",
        );
        rows.append(accent);
        rows.append(
            ";color:#ffffff;text-decoration:none;border-radius:8px;font-size:13px;font-weight:600;\">",
        );
        rows.append(esc_html(v[i].0.as_str()).as_str());
        rows.append("</a>");
        i = i + 1;
    }
    assert(all.take(i as int) =~= all);
    r = String::from_str("<tr><td style=\"padding:6px 28px 12px;\">");
    r.append(rows.as_str());
    r.append("</td></tr>");
    r
}

/// A mail in HTML.
pub fn render_html(m: &MailParts) -> (r: String)
    ensures
        r@ == html_of(*m),
{
    let intro = esc_html(m.intro.as_str());
    let mut r = String::from_str(
        "<!doctype html><html><body style=\"margin:0;padding:0;background:#f4f5f7;\"><div style=\"display:none;max-height:0;overflow:hidden;opacity:0;\">",
    );
    r.append(intro.as_str());
    r.append(
        "</div><table role=\"presentation\" width=\"100%\" cellpadding=\"0\" cellspacing=\"0\" style=\"background:#f4f5f7;padding:24px 12px;\"><tr><td align=\"center\"><table role=\"presentation\" width=\"600\" cellpadding=\"0\" cellspacing=\"0\" style=\"width:600px;max-width:600px;background:#ffffff;border-radius:12px;overflow:hidden;box-shadow:0 1px 3px rgba(16,24,40,.1);font-family:-apple-system,'Segoe UI',Roboto,Helvetica,Arial,sans-serif;\"><tr><td style=\"background:",
    );
    r.append(m.accent.as_str());
    r.append(
        ";padding:20px 28px;\"><div style=\"color:rgba(255,255,255,.82);font-size:11px;letter-spacing:.12em;text-transform:uppercase;font-weight:700;\">",
    );
    r.append(esc_html(m.kicker.as_str()).as_str());
    r.append(
        "</div><div style=\"color:#ffffff;font-size:21px;font-weight:700;margin-top:5px;line-height:1.25;\">",
    );
    r.append(esc_html(m.title.as_str()).as_str());
    r.append(
        "</div></td></tr><tr><td style=\"padding:22px 28px 6px;color:#1a1f2b;font-size:15px;line-height:1.55;\">",
    );
    r.append(intro.as_str());
    r.append("</td></tr>");
    r.append(show_kv(&m.kv).as_str());
    r.append(show_code(&m.code).as_str());
    r.append(show_steps(&m.steps, m.accent.as_str()).as_str());
    r.append(show_links(&m.links, m.accent.as_str()).as_str());
    r.append(
        "<tr><td style=\"padding:16px 28px 24px;border-top:1px solid #eceef2;color:#8a94a6;font-size:12px;line-height:1.5;\">",
    );
    r.append(esc_html(m.footer.as_str()).as_str());
    r.append("</td></tr></table></td></tr></table></body></html>");
    r
}

/// The details of a mail in plain text.
pub open spec fn kv_lines(v: Seq<(Seq<char>, Seq<char>)>) -> Seq<char>
    decreases v.len(),
{
    if v.len() == 0 {
        Seq::empty()
    } else {
        kv_lines(v.drop_last()) + "  "@ + v.last().0 + ": "@ + v.last().1 + "\n"@
    }
}

/// What to do, numbered from one, in plain text.
pub open spec fn step_lines(v: Seq<Seq<char>>) -> Seq<char>
    decreases v.len(),
{
    if v.len() == 0 {
        Seq::empty()
    } else {
        step_lines(v.drop_last()) + "  "@ + text::decimal(v.len()) + ". "@ + v.last() + "\n"@
    }
}

/// The links of a mail in plain text.
pub open spec fn link_lines(v: Seq<(Seq<char>, Seq<char>)>) -> Seq<char>
    decreases v.len(),
{
    if v.len() == 0 {
        Seq::empty()
    } else {
        link_lines(v.drop_last()) + "\n"@ + v.last().0 + ": "@ + v.last().1 + "\n"@
    }
}

/// A mail in plain text.
pub open spec fn text_of(m: MailParts) -> Seq<char> {
    m.kicker@ + "\n"@ + m.title@ + "\n\n"@ + m.intro@ + "\n"@ + kv_lines(lists::pairs(m.kv@)) + (
    match m.code {
        Some(c) => "\n"@ + c.0@ + ":\n    "@ + c.1@ + "\n"@,
        None => ""@,
    }) + (if m.steps@.len() > 0 {
        "\nWhat to do:\n"@ + step_lines(text::texts(m.steps@))
    } else {
        ""@
    }) + link_lines(lists::pairs(m.links@)) + "\n--\n"@ + m.footer@ + "\n"@
}

/// The details of a mail in plain text.
fn list_kv(v: &Vec<(String, String)>) -> (r: String)
    ensures
        r@ == kv_lines(lists::pairs(v@)),
{
    let ghost all = lists::pairs(v@);
    let mut r = String::new();
    let mut i: usize = 0;
    assert(all.take(0) =~= Seq::empty());
    while i < v.len()
        invariant
            i <= v@.len(),
            all == lists::pairs(v@),
            r@ == kv_lines(all.take(i as int)),
        decreases v@.len() - i,
    {
        assert(all.take(i + 1).drop_last() =~= all.take(i as int));
        assert(all.take(i + 1).last() == lists::pair(v@[i as int]));
        r.append("  ");
        r.append(v[i].0.as_str());
        r.append(": ");
        r.append(v[i].1.as_str());
        r.append("\n");
        i = i + 1;
    }
    assert(all.take(i as int) =~= all);
    r
}

/// What to do, numbered from one, in plain text.
fn list_steps(v: &Vec<String>) -> (r: String)
    ensures
        r@ == step_lines(text::texts(v@)),
{
    let ghost all = text::texts(v@);
    let mut r = String::new();
    let mut i: usize = 0;
    assert(all.take(0) =~= Seq::empty());
    while i < v.len()
        invariant
            i <= v.len(),
            all == text::texts(v@),
            r@ == step_lines(all.take(i as int)),
        decreases v@.len() - i,
    {
        assert(all.take(i + 1).drop_last() =~= all.take(i as int));
        assert(all.take(i + 1).last() == v@[i as int]@);
        r.append("  ");
        r.append(text::show_usize(i + 1).as_str());
        r.append(". ");
        r.append(v[i].as_str());
        r.append("\n");
        i = i + 1;
    }
    assert(all.take(i as int) =~= all);
    r
}

/// The links of a mail in plain text.
fn list_links(v: &Vec<(String, String)>) -> (r: String)
    ensures
        r@ == link_lines(lists::pairs(v@)),
{
    let ghost all = lists::pairs(v@);
    let mut r = String::new();
    let mut i: usize = 0;
    assert(all.take(0) =~= Seq::empty());
    while i < v.len()
        invariant
            i <= v@.len(),
            all == lists::pairs(v@),
            r@ == link_lines(all.take(i as int)),
        decreases v@.len() - i,
    {
        assert(all.take(i + 1).drop_last() =~= all.take(i as int));
        assert(all.take(i + 1).last() == lists::pair(v@[i as int]));
        r.append("\n");
        r.append(v[i].0.as_str());
        r.append(": ");
        r.append(v[i].1.as_str());
        r.append("\n");
        i = i + 1;
    }
    assert(all.take(i as int) =~= all);
    r
}

/// A mail in plain text.
pub fn render_text(m: &MailParts) -> (r: String)
    ensures
        r@ == text_of(*m),
{
    let mut code = String::from_str("");
    match &m.code {
        Some(c) => {
            code = String::from_str("\n");
            code.append(c.0.as_str());
            code.append(":\n    ");
            code.append(c.1.as_str());
            code.append("\n");
        },
        None => {},
    }
    let mut steps = String::from_str("");
    if m.steps.len() > 0 {
        steps = String::from_str("\nWhat to do:\n");
        steps.append(list_steps(&m.steps).as_str());
    }
    let mut r = m.kicker.clone();
    r.append("\n");
    r.append(m.title.as_str());
    r.append("\n\n");
    r.append(m.intro.as_str());
    r.append("\n");
    r.append(list_kv(&m.kv).as_str());
    r.append(code.as_str());
    r.append(steps.as_str());
    r.append(list_links(&m.links).as_str());
    r.append("\n--\n");
    r.append(m.footer.as_str());
    r.append("\n");
    r
}

/// What parts the two forms of a mail from each other.
pub open spec fn boundary_of(to: Seq<char>, subject: Seq<char>, title: Seq<char>) -> Seq<char> {
    "=_cl_"@ + text::hexadecimal(
        sentinel::fnv(vstd::utf8::encode_utf8(to + subject + title)) as nat,
        16,
    )
}

/// A mail as it is sent: in plain text and in HTML.
pub open spec fn message_of(to: Seq<char>, subject: Seq<char>, m: MailParts) -> Seq<char> {
    let b = boundary_of(to, subject, m.title@);
    "To: "@ + to + package::named(
        "\r\nFrom: PlausiDen Guard <"@,
        "-tools@plausiden.com>\r\nSubject: "@,
    ) + subject
        + "\r\nMIME-Version: 1.0\r\nContent-Type: multipart/alternative; boundary=\""@ + b
        + "\"\r\n\r\n--"@ + b
        + "\r\nContent-Type: text/plain; charset=utf-8\r\nContent-Transfer-Encoding: 8bit\r\n\r\n"@
        + text_of(m) + "\r\n--"@ + b
        + "\r\nContent-Type: text/html; charset=utf-8\r\nContent-Transfer-Encoding: 8bit\r\n\r\n"@
        + html_of(m) + "\r\n--"@ + b + "--\r\n"@
}

/// A mail as it is sent.
pub fn message(to: &str, subject: &str, m: &MailParts) -> (r: String)
    ensures
        r@ == message_of(to@, subject@, *m),
{
    let mut seed = String::from_str(to);
    seed.append(subject);
    seed.append(m.title.as_str());
    let mut b = String::from_str("=_cl_");
    b.append(text::show_hex(sentinel::fnv1a(seed.as_str()), 16).as_str());
    let mut r = String::from_str("To: ");
    r.append(to);
    r.append(package::name_in(
        "\r\nFrom: PlausiDen Guard <",
        "-tools@plausiden.com>\r\nSubject: ",
    ).as_str());
    r.append(subject);
    r.append("\r\nMIME-Version: 1.0\r\nContent-Type: multipart/alternative; boundary=\"");
    r.append(b.as_str());
    r.append("\"\r\n\r\n--");
    r.append(b.as_str());
    r.append(
        "\r\nContent-Type: text/plain; charset=utf-8\r\nContent-Transfer-Encoding: 8bit\r\n\r\n",
    );
    r.append(render_text(m).as_str());
    r.append("\r\n--");
    r.append(b.as_str());
    r.append(
        "\r\nContent-Type: text/html; charset=utf-8\r\nContent-Transfer-Encoding: 8bit\r\n\r\n",
    );
    r.append(render_html(m).as_str());
    r.append("\r\n--");
    r.append(b.as_str());
    r.append("--\r\n");
    r
}

// ---- the mail about an incident -------------------------------------------

pub const INCIDENT_SUBJECT: &'static str = "PlausiDen API Guard — session halted, backup ready";

/// The caption of a link out of a message.
pub open spec fn caption(url: Seq<char>) -> Seq<char> {
    if text::has_text(url, "cyber-use-case"@) {
        "Apply for exemption"@
    } else {
        "Learn more"@
    }
}

/// The links out of a message, with their captions.
pub open spec fn captioned(urls: Seq<Seq<char>>) -> Seq<(Seq<char>, Seq<char>)> {
    urls.map_values(|u: Seq<char>| (caption(u), u))
}

/// The links of the mail about an incident: the first two of the message, and
/// one that is always there.
pub open spec fn incident_links(message: Seq<char>) -> Seq<(Seq<char>, Seq<char>)> {
    captioned(links_of(message, 2)).push(
        ("Support article"@, package::named("https://support."@, ".com/en/articles/15363606"@)),
    )
}

/// What is said of the loops that were stopped.
pub open spec fn stopped_text(stopped: Seq<Seq<char>>) -> Seq<char> {
    if stopped.len() == 0 {
        "none (not a guarded loop)"@
    } else {
        text::joined(stopped, ", "@)
    }
}

/// The details of the mail about an incident.
pub open spec fn incident_details(
    h: sentinel::Hit,
    host: Seq<char>,
    stopped: Seq<Seq<char>>,
) -> Seq<(Seq<char>, Seq<char>)> {
    seq![
        ("Host"@, host),
        ("Error code"@, h.error_code),
        ("Session"@, h.session_id),
        ("Loops stopped"@, stopped_text(stopped)),
        ("Message"@, text::first_chars(h.message, 240)),
    ]
}

/// What to do about an incident.
pub open spec fn incident_steps(backup: Seq<char>) -> Seq<Seq<char>> {
    seq![
        "Run the command above to re-attach to the session — the entire conversation returns."@,
        "If that session is gone, the complete raw transcript is preserved at "@ + backup
            + "/transcript.jsonl — open it or hand it to a fresh session."@,
        package::named(
            "Fix the underlying cause, then re-arm any halted loop with:  "@,
            "-loop guard --label <LABEL> --reset"@,
        ),
    ]
}

/// A pair of texts.
fn new_pair(a: &str, b: String) -> (r: (String, String))
    ensures
        lists::pair(r) == (a@, b@),
{
    (String::from_str(a), b)
}

/// The links of the mail about an incident.
fn list_incident_links(message: &str) -> (r: Vec<(String, String)>)
    ensures
        lists::pairs(r@) == incident_links(message@),
{
    let urls = first_urls(message, 2);
    let ghost all = captioned(links_of(message@, 2));
    let mut out: Vec<(String, String)> = Vec::new();
    let mut i: usize = 0;
    assert(lists::pairs(out@) =~= all.take(0));
    while i < urls.len()
        invariant
            i <= urls@.len(),
            text::texts(urls@) == links_of(message@, 2),
            all == captioned(links_of(message@, 2)),
            lists::pairs(out@) == all.take(i as int),
        decreases urls@.len() - i,
    {
        let ghost was = out@;
        assert(links_of(message@, 2)[i as int] == urls@[i as int]@);
        let label = if text::contains(urls[i].as_str(), "cyber-use-case") {
            "Apply for exemption"
        } else {
            "Learn more"
        };
        out.push(new_pair(label, urls[i].clone()));
        assert(all[i as int] == lists::pair(out@.last()));
        assert(lists::pairs(out@) =~= lists::pairs(was).push(lists::pair(out@.last())));
        assert(lists::pairs(out@) =~= all.take(i + 1));
        i = i + 1;
    }
    assert(all.take(i as int) =~= all);
    let ghost was = out@;
    out.push(
        new_pair(
            "Support article",
            package::name_in("https://support.", ".com/en/articles/15363606"),
        ),
    );
    assert(lists::pairs(out@) =~= lists::pairs(was).push(lists::pair(out@.last())));
    out
}

/// The mail about an incident.
pub fn incident_mail(
    h: &ApiErrorHit,
    host: &str,
    stopped: &Vec<String>,
    backup: &str,
    now: &str,
) -> (r: MailParts)
    ensures
        r.accent@ == (if h.is_policy_block {
            "#B4232B"@
        } else {
            "#B26A00"@
        }),
        r.kicker@ == "PlausiDen API Guard · Incident"@,
        r.title@ == (if h.is_policy_block {
            "A cyber-classifier block halted a session"@
        } else {
            "An API error halted a session"@
        }),
        r.intro@ == host@ + " detected a "@ + (if h.is_policy_block {
            "cybersecurity-classifier block"@
        } else {
            "API error"@
        }) + " in an interactive session and stopped "@ + text::decimal(stopped@.len())
            + " running loop(s). Your conversation is backed up and fully resumable — here's how."@,
        lists::pairs(r.kv@) == incident_details(h@, host@, text::texts(stopped@)),
        opt_pair(r.code) == Some(
            ("Resume the full conversation"@, package::named(""@, " --resume "@) + h@.session_id),
        ),
        text::texts(r.steps@) == incident_steps(backup@),
        lists::pairs(r.links@) == incident_links(h@.message),
        r.footer@ == package::named("Sent by the "@, "-loop sentinel on "@) + host@ + " at "@ + now@
            + package::named(".  Disable: systemctl disable --now "@, "-sentinel.timer  ·  Reconfigure: "@) + package::named(
                ""@,
                "-loop sentinel --setup"@,
            ),
{
    let mut intro = String::from_str(host);
    intro.append(" detected a ");
    intro.append(
        if h.is_policy_block {
            "cybersecurity-classifier block"
        } else {
            "API error"
        },
    );
    intro.append(" in an interactive session and stopped ");
    intro.append(text::show_usize(stopped.len()).as_str());
    intro.append(
        " running loop(s). Your conversation is backed up and fully resumable — here's how.",
    );
    let halted = if stopped.len() == 0 {
        String::from_str("none (not a guarded loop)")
    } else {
        text::join(stopped, ", ")
    };
    let mut kv: Vec<(String, String)> = Vec::new();
    kv.push(new_pair("Host", String::from_str(host)));
    kv.push(new_pair("Error code", h.error_code.clone()));
    kv.push(new_pair("Session", h.session_id.clone()));
    kv.push(new_pair("Loops stopped", halted));
    kv.push(new_pair("Message", text::take_chars(h.message.as_str(), 240)));
    assert(lists::pairs(kv@) =~= incident_details(h@, host@, text::texts(stopped@)));
    let mut command = package::name_in("", " --resume ");
    command.append(h.session_id.as_str());
    let mut second = String::from_str(
        "If that session is gone, the complete raw transcript is preserved at ",
    );
    second.append(backup);
    second.append("/transcript.jsonl — open it or hand it to a fresh session.");
    let mut steps: Vec<String> = Vec::new();
    steps.push(
        String::from_str(
            "Run the command above to re-attach to the session — the entire conversation returns.",
        ),
    );
    steps.push(second);
    steps.push(
        package::name_in(
            "Fix the underlying cause, then re-arm any halted loop with:  ",
            "-loop guard --label <LABEL> --reset",
        ),
    );
    assert(text::texts(steps@) =~= incident_steps(backup@));
    let mut footer = package::name_in("Sent by the ", "-loop sentinel on ");
    footer.append(host);
    footer.append(" at ");
    footer.append(now);
    footer.append(
        package::name_in(
            ".  Disable: systemctl disable --now ",
            "-sentinel.timer  ·  Reconfigure: ",
        ).as_str(),
    );
    footer.append(package::name_in("", "-loop sentinel --setup").as_str());
    MailParts {
        accent: String::from_str(
            if h.is_policy_block {
                "#B4232B"
            } else {
                "#B26A00"
            },
        ),
        kicker: String::from_str("PlausiDen API Guard · Incident"),
        title: String::from_str(
            if h.is_policy_block {
                "A cyber-classifier block halted a session"
            } else {
                "An API error halted a session"
            },
        ),
        intro,
        kv,
        code: Some(new_pair("Resume the full conversation", command)),
        steps,
        links: list_incident_links(h.message.as_str()),
        footer,
    }
}

/// The name of the machine, from the file that holds it.
pub fn hostname(raw: Option<&str>) -> (r: String)
    ensures
        r@ == (if raw is Some && text::trimmed(raw->0@).len() > 0 {
            text::trimmed(raw->0@)
        } else {
            "prime"@
        }),
{
    match raw {
        Some(s) => {
            let name = text::trim(s);
            if name.as_str().is_empty() {
                String::from_str("prime")
            } else {
                name
            }
        },
        None => String::from_str("prime"),
    }
}

// ---- laws -----------------------------------------------------------------

/// The HTML of two texts one after the other is that of the whole.
pub proof fn html_of_parts(a: Seq<char>, b: Seq<char>)
    ensures
        html(a + b) == html(a) + html(b),
{
    text::lemma_expanded_concat(a, b, html_escapes());
}

/// A text in which a character is put back wherever its name stands.
pub open spec fn put_back(s: Seq<char>, name: Seq<char>, c: char) -> Seq<char>
    decreases s.len(),
{
    if s.len() == 0 {
        Seq::empty()
    } else if name.len() > 0 && text::begins(s, name) {
        seq![c] + put_back(s.skip(name.len() as int), name, c)
    } else {
        seq![s[0]] + put_back(s.skip(1), name, c)
    }
}

/// What an HTML text reads as: the angles and the quote are put back, and the
/// ampersand after them.
pub open spec fn read_html(s: Seq<char>) -> Seq<char> {
    put_back(
        put_back(put_back(put_back(s, "&lt;"@, '<'), "&gt;"@, '>'), "&quot;"@, '"'),
        "&amp;"@,
        '&',
    )
}

/// The characters that are put back, one after the other.
spec fn nth_char(n: nat) -> char {
    if n == 0 {
        '<'
    } else if n == 1 {
        '>'
    } else if n == 2 {
        '"'
    } else {
        '&'
    }
}

/// What stands for a character once the first `n` were put back.
spec fn escape_but(n: nat, c: char) -> Seq<char> {
    if c == '<' && n > 0 || c == '>' && n > 1 || c == '"' && n > 2 || c == '&' && n > 3 {
        seq![c]
    } else {
        html_escape(c)
    }
}

spec fn escapes_but(n: nat) -> spec_fn(char) -> Seq<char> {
    |c: char| escape_but(n, c)
}

proof fn lemma_expanded_front(s: Seq<char>, f: spec_fn(char) -> Seq<char>)
    requires
        s.len() > 0,
    ensures
        text::expanded(s, f) == f(s[0]) + text::expanded(s.skip(1), f),
{
    let one = seq![s[0]];
    assert(s =~= one + s.skip(1));
    text::lemma_expanded_concat(one, s.skip(1), f);
    assert(one.drop_last() =~= Seq::empty());
    assert(text::expanded(one.drop_last(), f) =~= Seq::empty());
    assert(text::expanded(one, f) =~= f(s[0]));
}

proof fn lemma_put_back_passes(w: Seq<char>, rest: Seq<char>, name: Seq<char>, c: char)
    requires
        name.len() > 0,
        !w.contains(name[0]),
    ensures
        put_back(w + rest, name, c) == w + put_back(rest, name, c),
    decreases w.len(),
{
    if w.len() == 0 {
        assert(w + rest =~= rest);
        assert(w + put_back(rest, name, c) =~= put_back(rest, name, c));
    } else {
        let all = w + rest;
        assert(w.contains(w[0]));
        if text::begins(all, name) {
            assert(all.subrange(0, name.len() as int)[0] == name[0]);
        }
        let tail = w.skip(1);
        assert(!tail.contains(name[0])) by {
            if tail.contains(name[0]) {
                let i = choose|i: int| 0 <= i < tail.len() && tail[i] == name[0];
                assert(w[i + 1] == name[0]);
            }
        }
        lemma_put_back_passes(tail, rest, name, c);
        assert(all.skip(1) =~= tail + rest);
        assert(put_back(all, name, c) =~= w + put_back(rest, name, c));
    }
}

proof fn lemma_put_back_first(c: char, rest: Seq<char>, n: nat)
    requires
        n < 4,
    ensures
        put_back(escape_but(n, c) + rest, html_escape(nth_char(n)), nth_char(n)) == escape_but(
            n + 1,
            c,
        ) + put_back(rest, html_escape(nth_char(n)), nth_char(n)),
{
    reveal_strlit("&amp;");
    reveal_strlit("&lt;");
    reveal_strlit("&gt;");
    reveal_strlit("&quot;");
    let name = html_escape(nth_char(n));
    let e = escape_but(n, c);
    let all = e + rest;
    assert(name[0] == '&');
    if c == nth_char(n) {
        assert(e == name);
        assert(all.subrange(0, name.len() as int) =~= name);
        assert(all.skip(name.len() as int) =~= rest);
    } else if e.len() == 1 {
        assert(e =~= seq![c]);
        assert(c != '&');
        assert(!e.contains('&'));
        lemma_put_back_passes(e, rest, name, nth_char(n));
    } else {
        assert(e == html_escape(c));
        assert(e[1] != name[1]);
        if text::begins(all, name) {
            assert(all.subrange(0, name.len() as int)[1] == name[1]);
            assert(all[1] == e[1]);
        }
        let tail = e.skip(1);
        assert(!tail.contains('&')) by {
            if tail.contains('&') {
                let i = choose|i: int| 0 <= i < tail.len() && tail[i] == '&';
                assert(e[i + 1] == '&');
            }
        }
        lemma_put_back_passes(tail, rest, name, nth_char(n));
        assert(all.skip(1) =~= tail + rest);
        assert(seq![all[0]] + (tail + put_back(rest, name, nth_char(n))) =~= e + put_back(
            rest,
            name,
            nth_char(n),
        ));
    }
}

proof fn lemma_put_back_next(s: Seq<char>, n: nat)
    requires
        n < 4,
    ensures
        put_back(text::expanded(s, escapes_but(n)), html_escape(nth_char(n)), nth_char(n))
            == text::expanded(s, escapes_but(n + 1)),
    decreases s.len(),
{
    if s.len() > 0 {
        lemma_expanded_front(s, escapes_but(n));
        lemma_expanded_front(s, escapes_but(n + 1));
        lemma_put_back_first(s[0], text::expanded(s.skip(1), escapes_but(n)), n);
        lemma_put_back_next(s.skip(1), n);
    }
}

proof fn lemma_all_put_back(s: Seq<char>)
    ensures
        text::expanded(s, escapes_but(4)) == s,
    decreases s.len(),
{
    if s.len() > 0 {
        lemma_all_put_back(s.drop_last());
        assert(text::expanded(s, escapes_but(4)) =~= s);
    }
}

/// HTML reads as the text that it was made of: nothing is lost, and nothing is
/// escaped twice.
pub proof fn html_reads_back(s: Seq<char>)
    ensures
        read_html(html(s)) == s,
{
    assert(escapes_but(0) =~= html_escapes());
    lemma_put_back_next(s, 0);
    lemma_put_back_next(s, 1);
    lemma_put_back_next(s, 2);
    lemma_put_back_next(s, 3);
    lemma_all_put_back(s);
}

/// Whether a character is markup.
pub open spec fn is_markup(c: char) -> bool {
    c == '<' || c == '>' || c == '"'
}

/// A character where it is markup.
pub open spec fn markup_of(c: char) -> Seq<char> {
    if is_markup(c) {
        seq![c]
    } else {
        Seq::empty()
    }
}

/// `markup_of` as a value.
pub open spec fn markups() -> spec_fn(char) -> Seq<char> {
    |c: char| markup_of(c)
}

/// The markup of a text: its angles and quotes, in their order.
pub open spec fn markup(s: Seq<char>) -> Seq<char> {
    text::expanded(s, markups())
}

/// How often a character stands in a text.
pub open spec fn times(s: Seq<char>, c: char) -> nat
    decreases s.len(),
{
    if s.len() == 0 {
        0
    } else {
        times(s.drop_last(), c) + (if s.last() == c {
            1nat
        } else {
            0
        })
    }
}

proof fn lemma_times_of_markup(s: Seq<char>, c: char)
    requires
        is_markup(c),
    ensures
        times(markup(s), c) == times(s, c),
    decreases s.len(),
{
    if s.len() > 0 {
        lemma_times_of_markup(s.drop_last(), c);
        let before = markup(s.drop_last());
        if is_markup(s.last()) {
            assert(markup(s) =~= before.push(s.last()));
            assert(markup(s).drop_last() =~= before);
        } else {
            assert(markup(s) =~= before);
        }
    }
}

proof fn lemma_html_has_no_markup(s: Seq<char>)
    ensures
        markup(html(s)) == Seq::<char>::empty(),
{
    html_holds_no_markup(s);
    lemma_no_markup(html(s));
}

proof fn lemma_no_markup(s: Seq<char>)
    requires
        forall|i: int| 0 <= i < s.len() ==> !is_markup(#[trigger] s[i]),
    ensures
        markup(s) == Seq::<char>::empty(),
    decreases s.len(),
{
    if s.len() > 0 {
        let w = s.drop_last();
        assert forall|i: int| 0 <= i < w.len() implies !is_markup(#[trigger] w[i]) by {
            assert(w[i] == s[i]);
        }
        lemma_no_markup(w);
        assert(s.last() == s[s.len() - 1]);
        assert(markup(s) =~= Seq::empty());
    }
}

/// Two texts that go on alike have the same markup where what goes on has.
proof fn lemma_markup_goes_on(a: Seq<char>, b: Seq<char>, x: Seq<char>, y: Seq<char>)
    requires
        markup(a) == markup(b),
        markup(x) == markup(y),
    ensures
        markup(a + x) == markup(b + y),
{
    text::lemma_expanded_concat(a, x, markups());
    text::lemma_expanded_concat(b, y, markups());
}

/// Two texts that go on with HTML of whatever texts keep the same markup.
proof fn lemma_markup_past_html(a: Seq<char>, b: Seq<char>, x: Seq<char>, y: Seq<char>)
    requires
        markup(a) == markup(b),
    ensures
        markup(a + html(x)) == markup(b + html(y)),
{
    lemma_html_has_no_markup(x);
    lemma_html_has_no_markup(y);
    lemma_markup_goes_on(a, b, html(x), html(y));
}

proof fn lemma_kv_markup(v: Seq<(Seq<char>, Seq<char>)>, w: Seq<(Seq<char>, Seq<char>)>)
    requires
        v.len() == w.len(),
    ensures
        markup(kv_rows(v)) == markup(kv_rows(w)),
    decreases v.len(),
{
    if v.len() > 0 {
        lemma_kv_markup(v.drop_last(), w.drop_last());
        let t =
            "<tr><td style=\"padding:5px 0;color:#5b6472;font-size:13px;width:130px;vertical-align:top;\">"@;
        let u =
            "</td><td style=\"padding:5px 0;color:#1a1f2b;font-size:13px;font-family:SFMono-Regular,Consolas,monospace;word-break:break-all;\">"@;
        let a = kv_rows(v.drop_last());
        let b = kv_rows(w.drop_last());
        lemma_markup_goes_on(a, b, t, t);
        lemma_markup_past_html(a + t, b + t, v.last().0, w.last().0);
        let a = a + t + html(v.last().0);
        let b = b + t + html(w.last().0);
        lemma_markup_goes_on(a, b, u, u);
        lemma_markup_past_html(a + u, b + u, v.last().1, w.last().1);
        lemma_markup_goes_on(
            a + u + html(v.last().1),
            b + u + html(w.last().1),
            "</td></tr>"@,
            "</td></tr>"@,
        );
    }
}

proof fn lemma_steps_markup(v: Seq<Seq<char>>, w: Seq<Seq<char>>, accent: Seq<char>)
    requires
        v.len() == w.len(),
    ensures
        markup(step_rows(v, accent)) == markup(step_rows(w, accent)),
    decreases v.len(),
{
    if v.len() > 0 {
        lemma_steps_markup(v.drop_last(), w.drop_last(), accent);
        let t = "<tr><td style=\"padding:4px 8px 4px 0;vertical-align:top;color:"@;
        let u = ";font-weight:700;font-size:14px;\">"@;
        let n = text::decimal(v.len());
        let x =
            ".</td><td style=\"padding:4px 0;color:#1a1f2b;font-size:14px;line-height:1.5;\">"@;
        let a = step_rows(v.drop_last(), accent);
        let b = step_rows(w.drop_last(), accent);
        lemma_markup_goes_on(a, b, t, t);
        lemma_markup_goes_on(a + t, b + t, accent, accent);
        lemma_markup_goes_on(a + t + accent, b + t + accent, u, u);
        lemma_markup_goes_on(a + t + accent + u, b + t + accent + u, n, n);
        let a = a + t + accent + u + n;
        let b = b + t + accent + u + n;
        lemma_markup_goes_on(a, b, x, x);
        lemma_markup_past_html(a + x, b + x, v.last(), w.last());
        lemma_markup_goes_on(
            a + x + html(v.last()),
            b + x + html(w.last()),
            "</td></tr>"@,
            "</td></tr>"@,
        );
    }
}

proof fn lemma_buttons_markup(
    v: Seq<(Seq<char>, Seq<char>)>,
    w: Seq<(Seq<char>, Seq<char>)>,
    accent: Seq<char>,
)
    requires
        v.len() == w.len(),
    ensures
        markup(buttons(v, accent)) == markup(buttons(w, accent)),
    decreases v.len(),
{
    if v.len() > 0 {
        lemma_buttons_markup(v.drop_last(), w.drop_last(), accent);
        let t = "<a href=\""@;
        let u =
            "\" style=\"display:inline-block;margin:6px 8px 6px 0;padding:9px 16px;background:"@;
        let x =
            ";color:#ffffff;text-decoration:none;border-radius:8px;font-size:13px;font-weight:600;\">"@;
        let a = buttons(v.drop_last(), accent);
        let b = buttons(w.drop_last(), accent);
        lemma_markup_goes_on(a, b, t, t);
        lemma_markup_past_html(a + t, b + t, v.last().1, w.last().1);
        let a = a + t + html(v.last().1);
        let b = b + t + html(w.last().1);
        lemma_markup_goes_on(a, b, u, u);
        lemma_markup_goes_on(a + u, b + u, accent, accent);
        lemma_markup_goes_on(a + u + accent, b + u + accent, x, x);
        lemma_markup_past_html(a + u + accent + x, b + u + accent + x, v.last().0, w.last().0);
        lemma_markup_goes_on(
            a + u + accent + x + html(v.last().0),
            b + u + accent + x + html(w.last().0),
            "</a>"@,
            "</a>"@,
        );
    }
}

proof fn lemma_tables_markup(m: MailParts, o: MailParts)
    requires
        m.accent@ == o.accent@,
        m.kv@.len() == o.kv@.len(),
        m.code is Some == o.code is Some,
        m.steps@.len() == o.steps@.len(),
        m.links@.len() == o.links@.len(),
    ensures
        markup(kv_html(lists::pairs(m.kv@))) == markup(kv_html(lists::pairs(o.kv@))),
        markup(code_html(opt_pair(m.code))) == markup(code_html(opt_pair(o.code))),
        markup(steps_html(text::texts(m.steps@), m.accent@)) == markup(
            steps_html(text::texts(o.steps@), o.accent@),
        ),
        markup(links_html(lists::pairs(m.links@), m.accent@)) == markup(
            links_html(lists::pairs(o.links@), o.accent@),
        ),
{
    let accent = m.accent@;
    let end = "</table></td></tr>"@;
    if m.kv@.len() > 0 {
        let (v, w) = (lists::pairs(m.kv@), lists::pairs(o.kv@));
        let t =
            "<tr><td style=\"padding:4px 28px 8px;\"><table role=\"presentation\" width=\"100%\" cellpadding=\"0\" cellspacing=\"0\">"@;
        lemma_kv_markup(v, w);
        lemma_markup_goes_on(t, t, kv_rows(v), kv_rows(w));
        lemma_markup_goes_on(t + kv_rows(v), t + kv_rows(w), end, end);
    }
    if m.code is Some {
        let (v, w) = (opt_pair(m.code)->0, opt_pair(o.code)->0);
        let t =
            "<tr><td style=\"padding:12px 28px;\"><div style=\"color:#5b6472;font-size:12px;margin-bottom:6px;\">"@;
        let u =
            "</div><div style=\"background:#0f1420;color:#c8d3e6;font-family:SFMono-Regular,Consolas,monospace;font-size:13px;padding:12px 14px;border-radius:8px;white-space:pre-wrap;word-break:break-all;\">"@;
        let x = "</div></td></tr>"@;
        lemma_markup_past_html(t, t, v.0, w.0);
        lemma_markup_goes_on(t + html(v.0), t + html(w.0), u, u);
        lemma_markup_past_html(t + html(v.0) + u, t + html(w.0) + u, v.1, w.1);
        lemma_markup_goes_on(
            t + html(v.0) + u + html(v.1),
            t + html(w.0) + u + html(w.1),
            x,
            x,
        );
    }
    if m.steps@.len() > 0 {
        let (v, w) = (text::texts(m.steps@), text::texts(o.steps@));
        let t =
            "<tr><td style=\"padding:8px 28px;\"><div style=\"color:#5b6472;font-size:12px;text-transform:uppercase;letter-spacing:.08em;margin-bottom:8px;\">What to do</div><table role=\"presentation\" cellpadding=\"0\" cellspacing=\"0\">"@;
        lemma_steps_markup(v, w, accent);
        lemma_markup_goes_on(t, t, step_rows(v, accent), step_rows(w, accent));
        lemma_markup_goes_on(t + step_rows(v, accent), t + step_rows(w, accent), end, end);
    }
    if m.links@.len() > 0 {
        let (v, w) = (lists::pairs(m.links@), lists::pairs(o.links@));
        let t = "<tr><td style=\"padding:6px 28px 12px;\">"@;
        let u = "</td></tr>"@;
        lemma_buttons_markup(v, w, accent);
        lemma_markup_goes_on(t, t, buttons(v, accent), buttons(w, accent));
        lemma_markup_goes_on(t + buttons(v, accent), t + buttons(w, accent), u, u);
    }
}

/// What a mail says cannot change its markup: two mails with as many details,
/// steps and links, both with or without a block of code and of one colour, have
/// the same angles and quotes, one by one and so also in number.
pub proof fn mail_markup_is_fixed(m: MailParts, o: MailParts)
    requires
        m.accent@ == o.accent@,
        m.kv@.len() == o.kv@.len(),
        m.code is Some == o.code is Some,
        m.steps@.len() == o.steps@.len(),
        m.links@.len() == o.links@.len(),
    ensures
        markup(html_of(m)) == markup(html_of(o)),
        times(html_of(m), '<') == times(html_of(o), '<'),
        times(html_of(m), '>') == times(html_of(o), '>'),
        times(html_of(m), '"') == times(html_of(o), '"'),
{
    lemma_tables_markup(m, o);
    let a =
        "<!doctype html><html><body style=\"margin:0;padding:0;background:#f4f5f7;\"><div style=\"display:none;max-height:0;overflow:hidden;opacity:0;\">"@;
    let b = a;
    lemma_markup_past_html(a, b, m.intro@, o.intro@);
    let (a, b) = (a + html(m.intro@), b + html(o.intro@));
    let t =
        "</div><table role=\"presentation\" width=\"100%\" cellpadding=\"0\" cellspacing=\"0\" style=\"background:#f4f5f7;padding:24px 12px;\"><tr><td align=\"center\"><table role=\"presentation\" width=\"600\" cellpadding=\"0\" cellspacing=\"0\" style=\"width:600px;max-width:600px;background:#ffffff;border-radius:12px;overflow:hidden;box-shadow:0 1px 3px rgba(16,24,40,.1);font-family:-apple-system,'Segoe UI',Roboto,Helvetica,Arial,sans-serif;\"><tr><td style=\"background:"@;
    lemma_markup_goes_on(a, b, t, t);
    let (a, b) = (a + t, b + t);
    lemma_markup_goes_on(a, b, m.accent@, o.accent@);
    let (a, b) = (a + m.accent@, b + o.accent@);
    let t =
        ";padding:20px 28px;\"><div style=\"color:rgba(255,255,255,.82);font-size:11px;letter-spacing:.12em;text-transform:uppercase;font-weight:700;\">"@;
    lemma_markup_goes_on(a, b, t, t);
    let (a, b) = (a + t, b + t);
    lemma_markup_past_html(a, b, m.kicker@, o.kicker@);
    let (a, b) = (a + html(m.kicker@), b + html(o.kicker@));
    let t =
        "</div><div style=\"color:#ffffff;font-size:21px;font-weight:700;margin-top:5px;line-height:1.25;\">"@;
    lemma_markup_goes_on(a, b, t, t);
    let (a, b) = (a + t, b + t);
    lemma_markup_past_html(a, b, m.title@, o.title@);
    let (a, b) = (a + html(m.title@), b + html(o.title@));
    let t =
        "</div></td></tr><tr><td style=\"padding:22px 28px 6px;color:#1a1f2b;font-size:15px;line-height:1.55;\">"@;
    lemma_markup_goes_on(a, b, t, t);
    let (a, b) = (a + t, b + t);
    lemma_markup_past_html(a, b, m.intro@, o.intro@);
    let (a, b) = (a + html(m.intro@), b + html(o.intro@));
    let t =
        "</td></tr>"@;
    lemma_markup_goes_on(a, b, t, t);
    let (a, b) = (a + t, b + t);
    let (x, y) = (kv_html(lists::pairs(m.kv@)), kv_html(lists::pairs(o.kv@)));
    lemma_markup_goes_on(a, b, x, y);
    let (a, b) = (a + x, b + y);
    let (x, y) = (code_html(opt_pair(m.code)), code_html(opt_pair(o.code)));
    lemma_markup_goes_on(a, b, x, y);
    let (a, b) = (a + x, b + y);
    let x = steps_html(text::texts(m.steps@), m.accent@);
    let y = steps_html(text::texts(o.steps@), o.accent@);
    lemma_markup_goes_on(a, b, x, y);
    let (a, b) = (a + x, b + y);
    let x = links_html(lists::pairs(m.links@), m.accent@);
    let y = links_html(lists::pairs(o.links@), o.accent@);
    lemma_markup_goes_on(a, b, x, y);
    let (a, b) = (a + x, b + y);
    let t =
        "<tr><td style=\"padding:16px 28px 24px;border-top:1px solid #eceef2;color:#8a94a6;font-size:12px;line-height:1.5;\">"@;
    lemma_markup_goes_on(a, b, t, t);
    let (a, b) = (a + t, b + t);
    lemma_markup_past_html(a, b, m.footer@, o.footer@);
    let (a, b) = (a + html(m.footer@), b + html(o.footer@));
    let t =
        "</td></tr></table></td></tr></table></body></html>"@;
    lemma_markup_goes_on(a, b, t, t);
    let (a, b) = (a + t, b + t);
    assert(html_of(m) == a);
    assert(html_of(o) == b);
    lemma_times_of_markup(a, '<');
    lemma_times_of_markup(b, '<');
    lemma_times_of_markup(a, '>');
    lemma_times_of_markup(b, '>');
    lemma_times_of_markup(a, '"');
    lemma_times_of_markup(b, '"');
}

/// A link is its word without the full stops, commas, brackets and quotes that
/// it ends with, and without nothing else.
pub proof fn links_lose_their_punctuation(word: Seq<char>)
    ensures
        link_of(word).len() <= word.len(),
        link_of(word) == word.take(link_of(word).len() as int),
        forall|i: int|
            link_of(word).len() <= i < word.len() ==> (#[trigger] word[i] == '.' || word[i] == ','
                || word[i] == ')' || word[i] == ']' || word[i] == '"' || word[i] == '\''),
        link_of(word).len() > 0 ==> ({
            let c = link_of(word).last();
            c != '.' && c != ',' && c != ')' && c != ']' && c != '"' && c != '\''
        }),
    decreases word.len(),
{
    if word.len() > 0 && trails(word.last()) {
        let w = word.drop_last();
        links_lose_their_punctuation(w);
        assert(word.take(link_of(w).len() as int) =~= w.take(link_of(w).len() as int));
        assert forall|i: int| link_of(word).len() <= i < word.len() implies (#[trigger] word[i]
            == '.' || word[i] == ',' || word[i] == ')' || word[i] == ']' || word[i] == '"'
            || word[i] == '\'') by {
            if i < w.len() {
                assert(w[i] == word[i]);
            }
        }
    } else {
        assert(word.take(word.len() as int) =~= word);
    }
}

proof fn lemma_links_in(words: Seq<Seq<char>>, u: Seq<char>)
    ensures
        links_in(words).no_duplicates(),
        links_in(words).contains(u) <==> exists|i: int|
            0 <= i < words.len() && (text::begins(#[trigger] words[i], "http://"@) || text::begins(
                words[i],
                "https://"@,
            )) && link_of(words[i]) == u,
    decreases words.len(),
{
    if words.len() > 0 {
        let w = words.drop_last();
        let before = links_in(w);
        let all = links_in(words);
        lemma_links_in(w, u);
        lemma_links_in(w, link_of(words.last()));
        if before.contains(u) {
            let k = choose|k: int| 0 <= k < before.len() && before[k] == u;
            assert(all[k] == u);
            let i = choose|i: int|
                0 <= i < w.len() && (text::begins(#[trigger] w[i], "http://"@) || text::begins(
                    w[i],
                    "https://"@,
                )) && link_of(w[i]) == u;
            assert(words[i] == w[i]);
        }
        if is_link(words.last()) && link_of(words.last()) == u {
            assert(words[words.len() - 1] == words.last());
            if !before.contains(u) {
                assert(all[all.len() - 1] == u);
            }
        }
        if !before.contains(u) {
            assert forall|i: int| 0 <= i < w.len() implies !((text::begins(
                #[trigger] words[i],
                "http://"@,
            ) || text::begins(words[i], "https://"@)) && link_of(words[i]) == u) by {
                assert(w[i] == words[i]);
            }
            if all.contains(u) {
                let k = choose|k: int| 0 <= k < all.len() && all[k] == u;
                assert(k == all.len() - 1) by {
                    if k < before.len() {
                        assert(before[k] == u);
                    }
                }
            }
        }
        assert forall|i: int, j: int| 0 <= i < all.len() && 0 <= j < all.len() && i != j implies all[i]
            != all[j] by {
            if i < before.len() && j < before.len() {
                assert(before[i] != before[j]);
            } else if i < before.len() {
                assert(before.contains(before[i]));
            } else {
                assert(before.contains(before[j]));
            }
        }
    }
}

/// The links of a message are its words that begin with the name of a web
/// protocol, without their punctuation, each once; as many of them as there may
/// be, and all of them where there are no more.
pub proof fn links_of_a_message_are_found(s: Seq<char>, max: nat, u: Seq<char>)
    ensures
        ({
            let words = text::words_of(s);
            let found = links_of(s, max as int);
            let is_one = exists|i: int|
                0 <= i < words.len() && (text::begins(#[trigger] words[i], "http://"@)
                    || text::begins(words[i], "https://"@)) && link_of(words[i]) == u;
            &&& found.no_duplicates()
            &&& found.len() <= max
            &&& found.contains(u) ==> is_one
            &&& found.len() < max ==> (found.contains(u) <==> is_one)
        }),
{
    let words = text::words_of(s);
    let all = links_in(words);
    let found = links_of(s, max as int);
    lemma_links_in(words, u);
    assert forall|i: int, j: int| 0 <= i < found.len() && 0 <= j < found.len() && i
        != j implies found[i] != found[j] by {
        assert(found[i] == all[i] && found[j] == all[j]);
    }
    if found.contains(u) {
        let k = choose|k: int| 0 <= k < found.len() && found[k] == u;
        assert(all[k] == u);
    }
}

#[verifier::rlimit(80)]
#[verifier::spinoff_prover]
proof fn lemma_kv_lines(v: Seq<(Seq<char>, Seq<char>)>, i: int)
    requires
        0 <= i < v.len(),
    ensures
        text::has_text(kv_lines(v), "  "@ + v[i].0 + ": "@ + v[i].1 + "\n"@),
        text::has_text(kv_rows(v), html(v[i].0)),
        text::has_text(kv_rows(v), html(v[i].1)),
    decreases v.len(),
{
    let w = v.drop_last();
    let a = kv_lines(w);
    let line = "  "@ + v.last().0 + ": "@ + v.last().1 + "\n"@;
    assert(kv_lines(v) =~= a + line + Seq::empty());
    let head =
        "<tr><td style=\"padding:5px 0;color:#5b6472;font-size:13px;width:130px;vertical-align:top;\">"@;
    let middle =
        "</td><td style=\"padding:5px 0;color:#1a1f2b;font-size:13px;font-family:SFMono-Regular,Consolas,monospace;word-break:break-all;\">"@;
    let tail = "</td></tr>"@;
    let (x, y) = (html(v.last().0), html(v.last().1));
    let b = kv_rows(w);
    assert(kv_rows(v) == b + head + x + middle + y + tail);
    if i < w.len() {
        lemma_kv_lines(w, i);
        text::lemma_has_text_in_whole(
            Seq::empty(),
            a,
            line,
            "  "@ + v[i].0 + ": "@ + v[i].1 + "\n"@,
        );
        assert(Seq::<char>::empty() + a + line =~= kv_lines(v));
        let rest = head + x + middle + y + tail;
        text::lemma_has_text_in_whole(Seq::empty(), b, rest, html(v[i].0));
        text::lemma_has_text_in_whole(Seq::empty(), b, rest, html(v[i].1));
        assert(Seq::<char>::empty() + b + rest =~= kv_rows(v));
    } else {
        text::lemma_has_part(a, line, Seq::empty());
        text::lemma_has_part(b + head, x, middle + y + tail);
        assert(b + head + x + (middle + y + tail) =~= kv_rows(v));
        text::lemma_has_part(b + head + x + middle, y, tail);
    }
}

proof fn lemma_step_lines(v: Seq<Seq<char>>, i: int)
    requires
        0 <= i < v.len(),
    ensures
        text::has_text(
            step_lines(v),
            "  "@ + text::decimal((i + 1) as nat) + ". "@ + v[i] + "\n"@,
        ),
    decreases v.len(),
{
    let w = v.drop_last();
    let a = step_lines(w);
    let line = "  "@ + text::decimal(v.len()) + ". "@ + v.last() + "\n"@;
    assert(step_lines(v) =~= a + line + Seq::empty());
    if i < w.len() {
        lemma_step_lines(w, i);
        text::lemma_has_text_in_whole(
            Seq::empty(),
            a,
            line,
            "  "@ + text::decimal((i + 1) as nat) + ". "@ + v[i] + "\n"@,
        );
        assert(Seq::<char>::empty() + a + line =~= step_lines(v));
    } else {
        text::lemma_has_part(a, line, Seq::empty());
    }
}

proof fn lemma_link_lines(v: Seq<(Seq<char>, Seq<char>)>, i: int)
    requires
        0 <= i < v.len(),
    ensures
        text::has_text(link_lines(v), "\n"@ + v[i].0 + ": "@ + v[i].1 + "\n"@),
    decreases v.len(),
{
    let w = v.drop_last();
    let a = link_lines(w);
    let line = "\n"@ + v.last().0 + ": "@ + v.last().1 + "\n"@;
    assert(link_lines(v) =~= a + line + Seq::empty());
    if i < w.len() {
        lemma_link_lines(w, i);
        text::lemma_has_text_in_whole(
            Seq::empty(),
            a,
            line,
            "\n"@ + v[i].0 + ": "@ + v[i].1 + "\n"@,
        );
        assert(Seq::<char>::empty() + a + line =~= link_lines(v));
    } else {
        text::lemma_has_part(a, line, Seq::empty());
    }
}

/// The plain form of a mail says all that the mail says: title, introduction and
/// footer, each detail with its name, the code, the steps by their numbers and
/// each link with its caption.
#[verifier::rlimit(80)]
#[verifier::spinoff_prover]
pub proof fn plain_mail_says_everything(m: MailParts)
    ensures
        ({
            let s = text_of(m);
            &&& text::begins(s, m.kicker@ + "\n"@ + m.title@ + "\n\n"@ + m.intro@ + "\n"@)
            &&& text::ends(s, "\n--\n"@ + m.footer@ + "\n"@)
            &&& m.code matches Some(c) ==> text::has_text(s, "\n"@ + c.0@ + ":\n    "@ + c.1@ + "\n"@)
            &&& forall|i: int|
                0 <= i < m.kv@.len() ==> text::has_text(
                    s,
                    "  "@ + (#[trigger] m.kv@[i]).0@ + ": "@ + m.kv@[i].1@ + "\n"@,
                )
            &&& forall|i: int|
                0 <= i < m.steps@.len() ==> text::has_text(
                    s,
                    "  "@ + text::decimal((i + 1) as nat) + ". "@ + (#[trigger] m.steps@[i])@
                        + "\n"@,
                )
            &&& forall|i: int|
                0 <= i < m.links@.len() ==> text::has_text(
                    s,
                    "\n"@ + (#[trigger] m.links@[i]).0@ + ": "@ + m.links@[i].1@ + "\n"@,
                )
        }),
{
    let s = text_of(m);
    let head = m.kicker@ + "\n"@ + m.title@ + "\n\n"@ + m.intro@ + "\n"@;
    let kv = kv_lines(lists::pairs(m.kv@));
    let code = match m.code {
        Some(c) => "\n"@ + c.0@ + ":\n    "@ + c.1@ + "\n"@,
        None => ""@,
    };
    let steps = if m.steps@.len() > 0 {
        "\nWhat to do:\n"@ + step_lines(text::texts(m.steps@))
    } else {
        ""@
    };
    let links = link_lines(lists::pairs(m.links@));
    let foot = "\n--\n"@ + m.footer@ + "\n"@;
    assert(s =~= head + kv + code + steps + links + foot);
    assert(s.subrange(0, head.len() as int) =~= head);
    assert(s.subrange(s.len() - foot.len(), s.len() as int) =~= foot);
    assert(s =~= (head + kv) + code + (steps + links + foot));
    if m.code is Some {
        text::lemma_has_part(head + kv, code, steps + links + foot);
    }
    assert forall|i: int| 0 <= i < m.kv@.len() implies text::has_text(
        s,
        "  "@ + (#[trigger] m.kv@[i]).0@ + ": "@ + m.kv@[i].1@ + "\n"@,
    ) by {
        let p = lists::pairs(m.kv@);
        assert(p[i] == lists::pair(m.kv@[i]));
        lemma_kv_lines(p, i);
        let rest = code + steps + links + foot;
        text::lemma_has_text_in_whole(
            head,
            kv,
            rest,
            "  "@ + m.kv@[i].0@ + ": "@ + m.kv@[i].1@ + "\n"@,
        );
        assert(s =~= head + kv + rest);
    }
    assert forall|i: int| 0 <= i < m.steps@.len() implies text::has_text(
        s,
        "  "@ + text::decimal((i + 1) as nat) + ". "@ + (#[trigger] m.steps@[i])@ + "\n"@,
    ) by {
        let t = text::texts(m.steps@);
        assert(t[i] == m.steps@[i]@);
        lemma_step_lines(t, i);
        let first = head + kv + code + "\nWhat to do:\n"@;
        text::lemma_has_text_in_whole(
            first,
            step_lines(t),
            links + foot,
            "  "@ + text::decimal((i + 1) as nat) + ". "@ + m.steps@[i]@ + "\n"@,
        );
        assert(s =~= first + step_lines(t) + (links + foot));
    }
    assert forall|i: int| 0 <= i < m.links@.len() implies text::has_text(
        s,
        "\n"@ + (#[trigger] m.links@[i]).0@ + ": "@ + m.links@[i].1@ + "\n"@,
    ) by {
        let p = lists::pairs(m.links@);
        assert(p[i] == lists::pair(m.links@[i]));
        lemma_link_lines(p, i);
        text::lemma_has_text_in_whole(
            head + kv + code + steps,
            links,
            foot,
            "\n"@ + m.links@[i].0@ + ": "@ + m.links@[i].1@ + "\n"@,
        );
    }
}

#[verifier::rlimit(80)]
#[verifier::spinoff_prover]
proof fn lemma_both_forms(
    first: Seq<char>,
    plain_type: Seq<char>,
    plain: Seq<char>,
    gap: Seq<char>,
    b: Seq<char>,
    html_type: Seq<char>,
    rich: Seq<char>,
    end: Seq<char>,
)
    ensures
        ({
            let s = first + plain_type + plain + gap + b + html_type + rich + gap + b + end;
            &&& text::has_text(s, plain_type + plain + gap)
            &&& text::has_text(s, html_type + rich + gap)
        }),
{
    let s = first + plain_type + plain + gap + b + html_type + rich + gap + b + end;
    let rest = b + html_type + rich + gap + b + end;
    text::lemma_has_part(first, plain_type + plain + gap, rest);
    assert(s =~= first + (plain_type + plain + gap) + rest);
    let before = first + plain_type + plain + gap + b;
    text::lemma_has_part(before, html_type + rich + gap, b + end);
    assert(s =~= before + (html_type + rich + gap) + (b + end));
}

/// A mail goes to whom it is for, under its subject, and holds both its forms,
/// each under its type.
#[verifier::rlimit(80)]
#[verifier::spinoff_prover]
pub proof fn mail_holds_both_forms(to: Seq<char>, subject: Seq<char>, m: MailParts)
    ensures
        text::begins(message_of(to, subject, m), "To: "@ + to),
        text::has_text(
            message_of(to, subject, m),
            "\r\nContent-Type: text/plain; charset=utf-8\r\nContent-Transfer-Encoding: 8bit\r\n\r\n"@
                + text_of(m) + "\r\n--"@,
        ),
        text::has_text(
            message_of(to, subject, m),
            "\r\nContent-Type: text/html; charset=utf-8\r\nContent-Transfer-Encoding: 8bit\r\n\r\n"@
                + html_of(m) + "\r\n--"@,
        ),
{
    let b = boundary_of(to, subject, m.title@);
    let s = message_of(to, subject, m);
    let first = "To: "@ + to + package::named(
        "\r\nFrom: PlausiDen Guard <"@,
        "-tools@plausiden.com>\r\nSubject: "@,
    ) + subject + "\r\nMIME-Version: 1.0\r\nContent-Type: multipart/alternative; boundary=\""@ + b
        + "\"\r\n\r\n--"@ + b;
    let plain_type =
        "\r\nContent-Type: text/plain; charset=utf-8\r\nContent-Transfer-Encoding: 8bit\r\n\r\n"@;
    let html_type =
        "\r\nContent-Type: text/html; charset=utf-8\r\nContent-Transfer-Encoding: 8bit\r\n\r\n"@;
    let (plain, rich) = (text_of(m), html_of(m));
    lemma_both_forms(first, plain_type, plain, "\r\n--"@, b, html_type, rich, "--\r\n"@);
    assert(s == first + plain_type + plain + "\r\n--"@ + b + html_type + rich + "\r\n--"@ + b
        + "--\r\n"@);
    let head = "To: "@ + to;
    assert(s.subrange(0, head.len() as int) =~= head);
}

/// What is told of an incident: the host, the code, the session, the loops that
/// were stopped by name, and the beginning of the message.
pub proof fn incident_is_told(h: sentinel::Hit, host: Seq<char>, stopped: Seq<Seq<char>>)
    ensures
        ({
            let d = incident_details(h, host, stopped);
            &&& d.contains(("Host"@, host))
            &&& d.contains(("Error code"@, h.error_code))
            &&& d.contains(("Session"@, h.session_id))
            &&& stopped.len() > 0 ==> d.contains(("Loops stopped"@, text::joined(stopped, ", "@)))
            &&& h.message.len() <= 240 ==> d.contains(("Message"@, h.message))
            &&& h.message.len() > 240 ==> d.contains(("Message"@, h.message.take(240)))
        }),
{
    let d = incident_details(h, host, stopped);
    assert(d[0] == ("Host"@, host));
    assert(d[1] == ("Error code"@, h.error_code));
    assert(d[2] == ("Session"@, h.session_id));
    assert(d[3].0 == "Loops stopped"@);
    assert(d[4] == ("Message"@, text::first_chars(h.message, 240)));
    if stopped.len() > 0 {
        assert(d[3] == ("Loops stopped"@, text::joined(stopped, ", "@)));
    }
}

/// A link of a message is captioned by what it leads to, and the way to get help
/// always comes last.
pub proof fn incident_links_end_with_help(message: Seq<char>, i: int)
    ensures
        ({
            let found = links_of(message, 2);
            let r = incident_links(message);
            &&& r.len() == found.len() + 1
            &&& r.last() == (
                "Support article"@,
                package::named("https://support."@, ".com/en/articles/15363606"@),
            )
            &&& 0 <= i < found.len() ==> r[i].1 == found[i] && r[i].0 == if text::has_text(
                found[i],
                "cyber-use-case"@,
            ) {
                "Apply for exemption"@
            } else {
                "Learn more"@
            }
        }),
{
}

/// The HTML form of a mail holds all that the mail says, as text: introduction,
/// title, footer, each detail, each step and each link.
#[verifier::rlimit(80)]
#[verifier::spinoff_prover]
pub proof fn html_mail_says_everything(m: MailParts)
    ensures
        ({
            let s = html_of(m);
            &&& text::has_text(s, html(m.title@))
            &&& text::has_text(s, html(m.intro@))
            &&& text::has_text(s, html(m.footer@))
            &&& forall|i: int|
                0 <= i < m.kv@.len() ==> text::has_text(s, html((#[trigger] m.kv@[i]).1@))
            &&& forall|i: int|
                0 <= i < m.steps@.len() ==> text::has_text(s, html((#[trigger] m.steps@[i])@))
            &&& forall|i: int|
                0 <= i < m.links@.len() ==> text::has_text(s, html((#[trigger] m.links@[i]).1@))
            &&& m.code matches Some(c) ==> text::has_text(s, html(c.1@))
        }),
{
    let s = html_of(m);
    let open =
        "<!doctype html><html><body style=\"margin:0;padding:0;background:#f4f5f7;\"><div style=\"display:none;max-height:0;overflow:hidden;opacity:0;\">"@;
    let frame =
        "</div><table role=\"presentation\" width=\"100%\" cellpadding=\"0\" cellspacing=\"0\" style=\"background:#f4f5f7;padding:24px 12px;\"><tr><td align=\"center\"><table role=\"presentation\" width=\"600\" cellpadding=\"0\" cellspacing=\"0\" style=\"width:600px;max-width:600px;background:#ffffff;border-radius:12px;overflow:hidden;box-shadow:0 1px 3px rgba(16,24,40,.1);font-family:-apple-system,'Segoe UI',Roboto,Helvetica,Arial,sans-serif;\"><tr><td style=\"background:"@
            + m.accent@
            + ";padding:20px 28px;\"><div style=\"color:rgba(255,255,255,.82);font-size:11px;letter-spacing:.12em;text-transform:uppercase;font-weight:700;\">"@
            + html(m.kicker@)
            + "</div><div style=\"color:#ffffff;font-size:21px;font-weight:700;margin-top:5px;line-height:1.25;\">"@;
    let under_title =
        "</div></td></tr><tr><td style=\"padding:22px 28px 6px;color:#1a1f2b;font-size:15px;line-height:1.55;\">"@
            + html(m.intro@) + "</td></tr>"@;
    let kv = kv_html(lists::pairs(m.kv@));
    let code = code_html(opt_pair(m.code));
    let steps = steps_html(text::texts(m.steps@), m.accent@);
    let links = links_html(lists::pairs(m.links@), m.accent@);
    let foot =
        "<tr><td style=\"padding:16px 28px 24px;border-top:1px solid #eceef2;color:#8a94a6;font-size:12px;line-height:1.5;\">"@;
    let close = "</td></tr></table></td></tr></table></body></html>"@;
    lemma_html_parts(
        open,
        html(m.intro@),
        frame,
        html(m.title@),
        under_title,
        kv,
        code,
        steps,
        links,
        foot,
        html(m.footer@),
        close,
    );
    assert(s =~= open + html(m.intro@) + frame + html(m.title@) + under_title + kv + code + steps
        + links + foot + html(m.footer@) + close);
    lemma_within_html(m, open + html(m.intro@) + frame + html(m.title@) + under_title, foot + html(
        m.footer@,
    ) + close);
    assert(s =~= (open + html(m.intro@) + frame + html(m.title@) + under_title) + kv + code + steps
        + links + (foot + html(m.footer@) + close));
}

#[verifier::rlimit(80)]
#[verifier::spinoff_prover]
proof fn lemma_html_parts(
    open: Seq<char>,
    intro: Seq<char>,
    frame: Seq<char>,
    title: Seq<char>,
    under_title: Seq<char>,
    kv: Seq<char>,
    code: Seq<char>,
    steps: Seq<char>,
    links: Seq<char>,
    foot: Seq<char>,
    footer: Seq<char>,
    close: Seq<char>,
)
    ensures
        ({
            let s = open + intro + frame + title + under_title + kv + code + steps + links + foot
                + footer + close;
            text::has_text(s, intro) && text::has_text(s, title) && text::has_text(s, footer)
        }),
{
    let s = open + intro + frame + title + under_title + kv + code + steps + links + foot + footer
        + close;
    let a = frame + title + under_title + kv + code + steps + links + foot + footer + close;
    text::lemma_has_part(open, intro, a);
    assert(s =~= open + intro + a);
    let b = under_title + kv + code + steps + links + foot + footer + close;
    text::lemma_has_part(open + intro + frame, title, b);
    assert(s =~= open + intro + frame + title + b);
    text::lemma_has_part(
        open + intro + frame + title + under_title + kv + code + steps + links + foot,
        footer,
        close,
    );
}

#[verifier::rlimit(80)]
#[verifier::spinoff_prover]
proof fn lemma_within_html(m: MailParts, head: Seq<char>, tail: Seq<char>)
    ensures
        ({
            let s = head + kv_html(lists::pairs(m.kv@)) + code_html(opt_pair(m.code)) + steps_html(
                text::texts(m.steps@),
                m.accent@,
            ) + links_html(lists::pairs(m.links@), m.accent@) + tail;
            &&& forall|i: int|
                0 <= i < m.kv@.len() ==> text::has_text(s, html((#[trigger] m.kv@[i]).1@))
            &&& forall|i: int|
                0 <= i < m.steps@.len() ==> text::has_text(s, html((#[trigger] m.steps@[i])@))
            &&& forall|i: int|
                0 <= i < m.links@.len() ==> text::has_text(s, html((#[trigger] m.links@[i]).1@))
            &&& m.code matches Some(c) ==> text::has_text(s, html(c.1@))
        }),
{
    let kv = kv_html(lists::pairs(m.kv@));
    let code = code_html(opt_pair(m.code));
    let steps = steps_html(text::texts(m.steps@), m.accent@);
    let links = links_html(lists::pairs(m.links@), m.accent@);
    let s = head + kv + code + steps + links + tail;
    assert(s =~= head + kv + (code + steps + links + tail));
    assert(s =~= head + kv + code + (steps + links + tail));
    assert(s =~= head + kv + code + steps + (links + tail));
    assert forall|i: int| 0 <= i < m.kv@.len() implies text::has_text(
        s,
        html((#[trigger] m.kv@[i]).1@),
    ) by {
        let p = lists::pairs(m.kv@);
        assert(p[i] == lists::pair(m.kv@[i]));
        lemma_kv_lines(p, i);
        text::lemma_has_text_in_whole(
            "<tr><td style=\"padding:4px 28px 8px;\"><table role=\"presentation\" width=\"100%\" cellpadding=\"0\" cellspacing=\"0\">"@,
            kv_rows(p),
            "</table></td></tr>"@,
            html(p[i].1),
        );
        text::lemma_has_text_in_whole(head, kv, code + steps + links + tail, html(p[i].1));
    }
    assert forall|i: int| 0 <= i < m.steps@.len() implies text::has_text(
        s,
        html((#[trigger] m.steps@[i])@),
    ) by {
        let t = text::texts(m.steps@);
        assert(t[i] == m.steps@[i]@);
        lemma_step_rows(t, m.accent@, i);
        text::lemma_has_text_in_whole(
            "<tr><td style=\"padding:8px 28px;\"><div style=\"color:#5b6472;font-size:12px;text-transform:uppercase;letter-spacing:.08em;margin-bottom:8px;\">What to do</div><table role=\"presentation\" cellpadding=\"0\" cellspacing=\"0\">"@,
            step_rows(t, m.accent@),
            "</table></td></tr>"@,
            html(t[i]),
        );
        text::lemma_has_text_in_whole(head + kv + code, steps, links + tail, html(t[i]));
    }
    assert forall|i: int| 0 <= i < m.links@.len() implies text::has_text(
        s,
        html((#[trigger] m.links@[i]).1@),
    ) by {
        let p = lists::pairs(m.links@);
        assert(p[i] == lists::pair(m.links@[i]));
        lemma_buttons(p, m.accent@, i);
        text::lemma_has_text_in_whole(
            "<tr><td style=\"padding:6px 28px 12px;\">"@,
            buttons(p, m.accent@),
            "</td></tr>"@,
            html(p[i].1),
        );
        text::lemma_has_text_in_whole(head + kv + code + steps, links, tail, html(p[i].1));
    }
    if m.code is Some {
        let c = lists::pair(m.code->0);
        let before =
            "<tr><td style=\"padding:12px 28px;\"><div style=\"color:#5b6472;font-size:12px;margin-bottom:6px;\">"@
                + html(c.0)
                + "</div><div style=\"background:#0f1420;color:#c8d3e6;font-family:SFMono-Regular,Consolas,monospace;font-size:13px;padding:12px 14px;border-radius:8px;white-space:pre-wrap;word-break:break-all;\">"@;
        text::lemma_has_part(before, html(c.1), "</div></td></tr>"@);
        text::lemma_has_text_in_whole(head + kv, code, steps + links + tail, html(c.1));
    }
}

#[verifier::rlimit(80)]
#[verifier::spinoff_prover]
proof fn lemma_step_rows(v: Seq<Seq<char>>, accent: Seq<char>, i: int)
    requires
        0 <= i < v.len(),
    ensures
        text::has_text(step_rows(v, accent), html(v[i])),
    decreases v.len(),
{
    let w = v.drop_last();
    let a = step_rows(w, accent);
    let head = "<tr><td style=\"padding:4px 8px 4px 0;vertical-align:top;color:"@ + accent
        + ";font-weight:700;font-size:14px;\">"@ + text::decimal(v.len())
        + ".</td><td style=\"padding:4px 0;color:#1a1f2b;font-size:14px;line-height:1.5;\">"@;
    let tail = "</td></tr>"@;
    let x = html(v.last());
    assert(step_rows(v, accent) =~= a + head + x + tail);
    if i < w.len() {
        lemma_step_rows(w, accent, i);
        text::lemma_has_text_in_whole(Seq::empty(), a, head + x + tail, html(v[i]));
        assert(Seq::<char>::empty() + a + (head + x + tail) =~= step_rows(v, accent));
    } else {
        text::lemma_has_part(a + head, x, tail);
    }
}

#[verifier::rlimit(80)]
#[verifier::spinoff_prover]
proof fn lemma_buttons(v: Seq<(Seq<char>, Seq<char>)>, accent: Seq<char>, i: int)
    requires
        0 <= i < v.len(),
    ensures
        text::has_text(buttons(v, accent), html(v[i].1)),
    decreases v.len(),
{
    let w = v.drop_last();
    let a = buttons(w, accent);
    let x = html(v.last().1);
    let rest =
        "\" style=\"display:inline-block;margin:6px 8px 6px 0;padding:9px 16px;background:"@ + accent
            + ";color:#ffffff;text-decoration:none;border-radius:8px;font-size:13px;font-weight:600;\">"@
            + html(v.last().0) + "</a>"@;
    let href = "<a href=\""@;
    assert(buttons(v, accent) =~= a + href + x + rest);
    if i < w.len() {
        lemma_buttons(w, accent, i);
        text::lemma_has_text_in_whole(Seq::empty(), a, href + x + rest, html(v[i].1));
        assert(Seq::<char>::empty() + a + (href + x + rest) =~= buttons(v, accent));
    } else {
        text::lemma_has_part(a + href, x, rest);
    }
}

} // verus!

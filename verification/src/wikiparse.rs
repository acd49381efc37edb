//! Extraction of title, readable text, categories and outbound links from a
//! wiki page's HTML.  The HTML itself is interpreted by an outside parser
//! behind trusted wrappers; every rule applied to what the parser yields —
//! filtering, formatting, normalization, deduplication — is verified.

use vstd::prelude::*;
use vstd::string::StrSliceExecFns;
use vstd::string::StringExecFns;
use vstd::string::StringSliceAdditionalSpecFns;
use vstd::utf8::encode_utf8;
use scraper::{Html, Selector};
use crate::chars::{
    contains_spec, contains_str, starts_with_spec, starts_with_str, trim_spec, trim_str,
    push_char,
};

verus! {

/// Stands for the texts of the elements the CSS selector `sel` matches in
/// the HTML document `html`, in match order.
pub uninterp spec fn texts_in(html: Seq<char>, sel: Seq<char>) -> Seq<Seq<char>>;

/// Relies on `scraper::Html::parse_document`, `scraper::Selector::parse` and
/// `scraper::ElementRef::text`: collects the text of every element matching
/// the selector, a pure function of the two strings.
#[verifier::external_body]
fn select_texts(html: &str, sel: &str) -> (r: Vec<String>)
    ensures
        r@.map_values(|s: String| s@) == texts_in(html@, sel@),
{
    let document = Html::parse_document(html);
    let mut out: Vec<String> = Vec::new();
    if let Ok(selector) = Selector::parse(sel) {
        for el in document.select(&selector) {
            out.push(el.text().collect::<String>());
        }
    }
    out
}

/// Stands for the inner HTML of the first element the selector matches in
/// the document, if any.
pub uninterp spec fn inner_html_in(html: Seq<char>, sel: Seq<char>) -> Option<Seq<char>>;

/// Relies on `scraper::Html::parse_document`, `scraper::Selector::parse` and
/// `scraper::ElementRef::inner_html`: the inner HTML of the first match, a
/// pure function of the two strings.
#[verifier::external_body]
fn select_inner_html(html: &str, sel: &str) -> (r: Option<String>)
    ensures
        match (r, inner_html_in(html@, sel@)) {
            (Some(s), Some(t)) => s@ == t,
            (None, None) => true,
            _ => false,
        },
{
    let document = Html::parse_document(html);
    let selector = Selector::parse(sel).ok()?;
    document.select(&selector).next().map(|el| el.inner_html())
}

/// Stands for the texts of the elements matching `sel` in the HTML fragment
/// `html`, skipping elements that contain a descendant matching `deny`.
pub uninterp spec fn texts_excluding_in(html: Seq<char>, sel: Seq<char>, deny: Seq<char>) -> Seq<
    Seq<char>,
>;

/// Relies on `scraper::Html::parse_fragment`, `scraper::Selector::parse`,
/// `scraper::ElementRef::select` and `scraper::ElementRef::text`: the text
/// of each matching element without a denied descendant, a pure function of
/// the three strings.
#[verifier::external_body]
fn select_texts_excluding(html: &str, sel: &str, deny: &str) -> (r: Vec<String>)
    ensures
        r@.map_values(|s: String| s@) == texts_excluding_in(html@, sel@, deny@),
{
    let document = Html::parse_fragment(html);
    let mut out: Vec<String> = Vec::new();
    if let (Ok(selector), Ok(denied)) = (Selector::parse(sel), Selector::parse(deny)) {
        for el in document.select(&selector) {
            if el.select(&denied).next().is_none() {
                out.push(el.text().collect::<String>());
            }
        }
    }
    out
}

/// Stands for the `href` attributes of the anchors matching `sel` in the
/// HTML fragment `html`, in match order.
pub uninterp spec fn hrefs_in(html: Seq<char>, sel: Seq<char>) -> Seq<Seq<char>>;

/// Relies on `scraper::Html::parse_fragment`, `scraper::Selector::parse` and
/// `scraper::ElementRef::attr`: the `href` of every matching element, a pure
/// function of the two strings.
#[verifier::external_body]
fn select_hrefs(html: &str, sel: &str) -> (r: Vec<String>)
    ensures
        r@.map_values(|s: String| s@) == hrefs_in(html@, sel@),
{
    let document = Html::parse_fragment(html);
    let mut out: Vec<String> = Vec::new();
    if let Ok(selector) = Selector::parse(sel) {
        for el in document.select(&selector) {
            if let Some(href) = el.attr("href") {
                out.push(href.to_string());
            }
        }
    }
    out
}

/// A block survives cleaning when its trimmed text is longer than 20 bytes.
pub open spec fn block_kept(t: Seq<char>) -> bool {
    (encode_utf8(trim_spec(t)).len() as usize) > 20
}

/// The kept blocks of one selector's matches, each trimmed and wrapped in
/// the given prefix and suffix.
pub open spec fn kept_blocks(ts: Seq<Seq<char>>, prefix: Seq<char>, suffix: Seq<char>) -> Seq<
    Seq<char>,
>
    decreases ts.len(),
{
    if ts.len() == 0 {
        Seq::empty()
    } else {
        let rest = kept_blocks(ts.drop_first(), prefix, suffix);
        if block_kept(ts[0]) {
            seq![prefix + trim_spec(ts[0]) + suffix] + rest
        } else {
            rest
        }
    }
}

/// Collects the kept blocks of one selector, formatted.
fn collect_blocks(html: &str, sel: &str, prefix: &str, suffix: &str, out: &mut Vec<String>)
    ensures
        final(out)@.map_values(|s: String| s@) == old(out)@.map_values(|s: String| s@)
            + kept_blocks(
            texts_excluding_in(
                html@,
                sel@,
                ".mw-editsection, .navbox, .infobox, .toc, #toc, .thumb, .mbox, script, style, .reference, .noprint"@,
            ),
            prefix@,
            suffix@,
        ),
{
    let texts = select_texts_excluding(
        html,
        sel,
        ".mw-editsection, .navbox, .infobox, .toc, #toc, .thumb, .mbox, script, style, .reference, .noprint",
    );
    let ghost ts = texts@.map_values(|s: String| s@);
    let mut i: usize = 0;
    proof {
        assert(ts.skip(0) =~= ts);
        assert(old(out)@.map_values(|s: String| s@) + kept_blocks(ts.skip(0), prefix@, suffix@)
            =~= old(out)@.map_values(|s: String| s@) + kept_blocks(ts, prefix@, suffix@));
    }
    while i < texts.len()
        invariant
            ts == texts@.map_values(|s: String| s@),
            i <= texts@.len(),
            out@.map_values(|s: String| s@) + kept_blocks(ts.skip(i as int), prefix@, suffix@)
                =~~= old(out)@.map_values(|s: String| s@) + kept_blocks(ts, prefix@, suffix@),
        decreases texts@.len() - i,
    {
        proof {
            assert(ts.skip(i as int).len() > 0);
            assert(ts.skip(i as int)[0] == ts[i as int]);
            assert(ts.skip(i as int).drop_first() =~= ts.skip(i as int + 1));
        }
        let trimmed = trim_str(texts[i].as_str());
        if trimmed.as_str().len() > 20 {
            let mut block = prefix.to_owned();
            block.append(trimmed.as_str());
            block.append(suffix);
            let ghost old_map = out@.map_values(|s: String| s@);
            out.push(block);
            proof {
                assert(out@.map_values(|s: String| s@) =~~= old_map.push(
                    prefix@ + trim_spec(ts[i as int]) + suffix@,
                ));
                assert(old_map.push(prefix@ + trim_spec(ts[i as int]) + suffix@) + kept_blocks(
                    ts.skip(i as int + 1),
                    prefix@,
                    suffix@,
                ) =~~= old_map + kept_blocks(ts.skip(i as int), prefix@, suffix@));
            }
        } else {
            proof {
                assert(!block_kept(ts[i as int]));
                assert(kept_blocks(ts.skip(i as int), prefix@, suffix@) == kept_blocks(
                    ts.skip(i as int + 1),
                    prefix@,
                    suffix@,
                ));
            }
        }
        i = i + 1;
    }
    proof {
        assert(ts.skip(ts.len() as int) =~= Seq::<Seq<char>>::empty());
        assert(out@.map_values(|s: String| s@) + Seq::<Seq<char>>::empty() =~~= out@.map_values(
            |s: String| s@,
        ));
    }
}

/// The given parts joined with the separator.
pub open spec fn join_sep(parts: Seq<Seq<char>>, sep: Seq<char>) -> Seq<char>
    decreases parts.len(),
{
    if parts.len() == 0 {
        Seq::empty()
    } else if parts.len() == 1 {
        parts[0]
    } else {
        parts[0] + sep + join_sep(parts.drop_first(), sep)
    }
}

proof fn lemma_join_sep_push(parts: Seq<Seq<char>>, sep: Seq<char>, w: Seq<char>)
    ensures
        parts.len() == 0 ==> join_sep(parts.push(w), sep) == w,
        parts.len() > 0 ==> join_sep(parts.push(w), sep) == join_sep(parts, sep) + sep + w,
    decreases parts.len(),
{
    let p = parts.push(w);
    if parts.len() == 0 {
        assert(p[0] == w);
    } else if parts.len() == 1 {
        assert(p.drop_first() =~= seq![w]);
        assert(join_sep(p, sep) == p[0] + sep + join_sep(p.drop_first(), sep));
        assert(join_sep(p.drop_first(), sep) == w);
        assert(p[0] == parts[0]);
        assert(join_sep(parts, sep) == parts[0]);
    } else {
        lemma_join_sep_push(parts.drop_first(), sep, w);
        assert(p.drop_first() =~= parts.drop_first().push(w));
        assert(p[0] == parts[0]);
        assert(join_sep(p, sep) == p[0] + sep + join_sep(p.drop_first(), sep));
        assert(join_sep(parts, sep) == parts[0] + sep + join_sep(parts.drop_first(), sep));
        assert(parts[0] + sep + (join_sep(parts.drop_first(), sep) + sep + w) =~= (parts[0] + sep
            + join_sep(parts.drop_first(), sep)) + sep + w);
    }
}

/// Joins the parts with the separator.
pub fn join_with_sep(parts: &Vec<String>, sep: &str) -> (r: String)
    ensures
        r@ == join_sep(parts@.map_values(|s: String| s@), sep@),
{
    let mut r = String::new();
    let mut i: usize = 0;
    while i < parts.len()
        invariant
            i <= parts@.len(),
            r@ == join_sep(parts@.map_values(|s: String| s@).take(i as int), sep@),
        decreases parts@.len() - i,
    {
        let ghost vs = parts@.map_values(|s: String| s@);
        if i > 0 {
            r.append(sep);
        }
        r.append(parts[i].as_str());
        proof {
            lemma_join_sep_push(vs.take(i as int), sep@, vs[i as int]);
            assert(vs.take(i as int).push(vs[i as int]) =~~= vs.take(i as int + 1));
        }
        i = i + 1;
    }
    proof {
        assert(parts@.map_values(|s: String| s@).take(parts@.len() as int) =~~= parts@.map_values(
            |s: String| s@,
        ));
    }
    r
}


/// What `extract_clean_text` returns: the kept blocks of paragraphs,
/// headings, lists and quotes, headings marked with leading hashes, joined
/// with blank lines.
pub open spec fn clean_text_spec(html: Seq<char>) -> Seq<char> {
    let deny =
        ".mw-editsection, .navbox, .infobox, .toc, #toc, .thumb, .mbox, script, style, .reference, .noprint"@;
    let blocks = kept_blocks(texts_excluding_in(html, "p"@, deny), ""@, ""@) + kept_blocks(
        texts_excluding_in(html, "h2"@, deny),
        "\n## "@,
        "\n"@,
    ) + kept_blocks(texts_excluding_in(html, "h3"@, deny), "\n### "@, "\n"@) + kept_blocks(
        texts_excluding_in(html, "h4"@, deny),
        "\n#### "@,
        "\n"@,
    ) + kept_blocks(texts_excluding_in(html, "ul"@, deny), ""@, ""@) + kept_blocks(
        texts_excluding_in(html, "ol"@, deny),
        ""@,
        ""@,
    ) + kept_blocks(texts_excluding_in(html, "blockquote"@, deny), ""@, ""@);
    join_sep(blocks, "\n\n"@)
}

/// Extracts the readable text of a content fragment: paragraph, heading,
/// list and quote blocks longer than 20 bytes once trimmed, with structural
/// boilerplate dropped, joined by blank lines.
pub fn extract_clean_text(html: &str) -> (r: String)
    ensures
        r@ == clean_text_spec(html@),
{
    let mut blocks: Vec<String> = Vec::new();
    collect_blocks(html, "p", "", "", &mut blocks);
    collect_blocks(html, "h2", "\n## ", "\n", &mut blocks);
    collect_blocks(html, "h3", "\n### ", "\n", &mut blocks);
    collect_blocks(html, "h4", "\n#### ", "\n", &mut blocks);
    collect_blocks(html, "ul", "", "", &mut blocks);
    collect_blocks(html, "ol", "", "", &mut blocks);
    collect_blocks(html, "blockquote", "", "", &mut blocks);
    let r = join_with_sep(&blocks, "\n\n");
    proof {
        assert(blocks@.map_values(|s: String| s@) =~~= Seq::<Seq<char>>::empty() + kept_blocks(
            texts_excluding_in(
                html@,
                "p"@,
                ".mw-editsection, .navbox, .infobox, .toc, #toc, .thumb, .mbox, script, style, .reference, .noprint"@,
            ),
            ""@,
            ""@,
        ) + kept_blocks(
            texts_excluding_in(
                html@,
                "h2"@,
                ".mw-editsection, .navbox, .infobox, .toc, #toc, .thumb, .mbox, script, style, .reference, .noprint"@,
            ),
            "\n## "@,
            "\n"@,
        ) + kept_blocks(
            texts_excluding_in(
                html@,
                "h3"@,
                ".mw-editsection, .navbox, .infobox, .toc, #toc, .thumb, .mbox, script, style, .reference, .noprint"@,
            ),
            "\n### "@,
            "\n"@,
        ) + kept_blocks(
            texts_excluding_in(
                html@,
                "h4"@,
                ".mw-editsection, .navbox, .infobox, .toc, #toc, .thumb, .mbox, script, style, .reference, .noprint"@,
            ),
            "\n#### "@,
            "\n"@,
        ) + kept_blocks(
            texts_excluding_in(
                html@,
                "ul"@,
                ".mw-editsection, .navbox, .infobox, .toc, #toc, .thumb, .mbox, script, style, .reference, .noprint"@,
            ),
            ""@,
            ""@,
        ) + kept_blocks(
            texts_excluding_in(
                html@,
                "ol"@,
                ".mw-editsection, .navbox, .infobox, .toc, #toc, .thumb, .mbox, script, style, .reference, .noprint"@,
            ),
            ""@,
            ""@,
        ) + kept_blocks(
            texts_excluding_in(
                html@,
                "blockquote"@,
                ".mw-editsection, .navbox, .infobox, .toc, #toc, .thumb, .mbox, script, style, .reference, .noprint"@,
            ),
            ""@,
            ""@,
        ));
        assert(Seq::<Seq<char>>::empty() + kept_blocks(
            texts_excluding_in(
                html@,
                "p"@,
                ".mw-editsection, .navbox, .infobox, .toc, #toc, .thumb, .mbox, script, style, .reference, .noprint"@,
            ),
            ""@,
            ""@,
        ) =~~= kept_blocks(
            texts_excluding_in(
                html@,
                "p"@,
                ".mw-editsection, .navbox, .infobox, .toc, #toc, .thumb, .mbox, script, style, .reference, .noprint"@,
            ),
            ""@,
            ""@,
        ));
    }
    r
}

/// The readable content of a full page document: the cleaned text of the
/// main content container, of the broader body container if the main one is
/// missing, or nothing.
pub open spec fn page_content_spec(html: Seq<char>) -> Seq<char> {
    match inner_html_in(html, "#mw-content-text .mw-parser-output"@) {
        Some(inner) => clean_text_spec(inner),
        None => match inner_html_in(html, "#bodyContent"@) {
            Some(inner) => clean_text_spec(inner),
            None => Seq::empty(),
        },
    }
}

/// Extracts the readable content of a page document per
/// [`page_content_spec`].
pub fn extract_page_content(html: &str) -> (r: String)
    ensures
        r@ == page_content_spec(html@),
{
    match select_inner_html(html, "#mw-content-text .mw-parser-output") {
        Some(inner) => extract_clean_text(inner.as_str()),
        None => match select_inner_html(html, "#bodyContent") {
            Some(inner) => extract_clean_text(inner.as_str()),
            None => {
                let r = String::new();
                proof {
                    assert(r@ =~= page_content_spec(html@));
                }
                r
            },
        },
    }
}

/// The category names of the page: the category-link texts that start with
/// the category prefix, with the prefix dropped and the rest trimmed.
pub open spec fn categories_spec(ts: Seq<Seq<char>>) -> Seq<Seq<char>>
    decreases ts.len(),
{
    if ts.len() == 0 {
        Seq::empty()
    } else {
        let rest = categories_spec(ts.drop_first());
        if starts_with_spec(ts[0], "Category:"@) {
            seq![trim_spec(ts[0].skip("Category:"@.len() as int))] + rest
        } else {
            rest
        }
    }
}

/// Extracts the page's category names from its document HTML.
pub fn extract_categories(html: &str) -> (r: Vec<String>)
    ensures
        r@.map_values(|s: String| s@) == categories_spec(
            texts_in(html@, "#catlinks a, .category-links a"@),
        ),
{
    let texts = select_texts(html, "#catlinks a, .category-links a");
    let ghost ts = texts@.map_values(|s: String| s@);
    let mut r: Vec<String> = Vec::new();
    let mut i: usize = 0;
    proof {
        assert(ts.skip(0) =~= ts);
        assert(r@.map_values(|s: String| s@) + categories_spec(ts.skip(0)) =~~= categories_spec(
            ts,
        ));
    }
    while i < texts.len()
        invariant
            ts == texts@.map_values(|s: String| s@),
            i <= texts@.len(),
            r@.map_values(|s: String| s@) + categories_spec(ts.skip(i as int)) =~~=
                categories_spec(ts),
        decreases texts@.len() - i,
    {
        proof {
            assert(ts.skip(i as int).len() > 0);
            assert(ts.skip(i as int)[0] == ts[i as int]);
            assert(ts.skip(i as int).drop_first() =~= ts.skip(i as int + 1));
            reveal_strlit("Category:");
        }
        let t = &texts[i];
        if starts_with_str(t.as_str(), "Category:") {
            let n = t.as_str().unicode_len();
            let tail = t.as_str().substring_char(9, n);
            let trimmed = trim_str(tail);
            let ghost old_map = r@.map_values(|s: String| s@);
            r.push(trimmed);
            proof {
                assert("Category:"@.len() == 9);
                assert(tail@ =~= ts[i as int].skip(9));
                assert(r@.map_values(|s: String| s@) =~~= old_map.push(
                    trim_spec(ts[i as int].skip("Category:"@.len() as int)),
                ));
                assert(old_map.push(trim_spec(ts[i as int].skip("Category:"@.len() as int)))
                    + categories_spec(ts.skip(i as int + 1)) =~~= old_map + categories_spec(
                    ts.skip(i as int),
                ));
            }
        }
        i = i + 1;
    }
    proof {
        assert(ts.skip(ts.len() as int) =~= Seq::<Seq<char>>::empty());
        assert(r@.map_values(|s: String| s@) + Seq::<Seq<char>>::empty() =~~= r@.map_values(
            |s: String| s@,
        ));
    }
    r
}

/// A link worth following: same-domain, not a special, file or category
/// page, and without a fragment anchor.
pub open spec fn link_ok(h: Seq<char>) -> bool {
    &&& !(starts_with_spec(h, "http"@) && !contains_spec(h, "wiki.vintagestory.at"@))
    &&& !contains_spec(h, "Special:"@)
    &&& !contains_spec(h, "File:"@)
    &&& !contains_spec(h, "Category:"@)
    &&& !contains_spec(h, "#"@)
}

/// The canonical form of a link: an old-style page path becomes a title
/// query.
pub open spec fn normalize_link(h: Seq<char>) -> Seq<char> {
    if starts_with_spec(h, "/wiki/"@) {
        "/index.php?title="@ + h.skip("/wiki/"@.len() as int)
    } else {
        h
    }
}

/// Folds the candidate links into the accumulator: a link is kept when it
/// passes [`link_ok`] and its normal form is not already present.
pub open spec fn add_links(acc: Seq<Seq<char>>, hs: Seq<Seq<char>>) -> Seq<Seq<char>>
    decreases hs.len(),
{
    if hs.len() == 0 {
        acc
    } else {
        let acc2 = if link_ok(hs[0]) && !acc.contains(normalize_link(hs[0])) {
            acc.push(normalize_link(hs[0]))
        } else {
            acc
        };
        add_links(acc2, hs.drop_first())
    }
}

/// What `extract_wiki_links` returns for the document `html`.
pub open spec fn links_spec(html: Seq<char>) -> Seq<Seq<char>> {
    let hs = hrefs_in(html, "a[href^='/wiki/']"@) + hrefs_in(
        html,
        "a[href^='/index.php?title=']"@,
    ) + hrefs_in(html, "a[href*='title=']"@);
    add_links(Seq::empty(), hs)
}

/// Whether some string in `v` reads `s`.
fn vec_contains_string(v: &Vec<String>, s: &String) -> (r: bool)
    ensures
        r == v@.map_values(|x: String| x@).contains(s@),
{
    let mut i: usize = 0;
    while i < v.len()
        invariant
            i <= v@.len(),
            forall|t: int| 0 <= t < i ==> (#[trigger] v@[t])@ != s@,
        decreases v@.len() - i,
    {
        if v[i].eq(s) {
            proof {
                assert(v@.map_values(|x: String| x@)[i as int] == s@);
            }
            return true;
        }
        i = i + 1;
    }
    proof {
        let mv = v@.map_values(|x: String| x@);
        assert forall|t: int| 0 <= t < mv.len() implies #[trigger] mv[t] != s@ by {
            assert(mv[t] == v@[t]@);
        }
    }
    false
}

/// Extracts the outbound content links of a page: anchors matching the
/// content-link patterns, filtered by [`link_ok`], normalized, first
/// occurrence kept.
pub fn extract_wiki_links(html: &str) -> (r: Vec<String>)
    ensures
        r@.map_values(|s: String| s@) == links_spec(html@),
{
    let mut candidates = select_hrefs(html, "a[href^='/wiki/']");
    let mut more = select_hrefs(html, "a[href^='/index.php?title=']");
    let mut third = select_hrefs(html, "a[href*='title=']");
    let ghost h1 = candidates@.map_values(|s: String| s@);
    let ghost h2 = more@.map_values(|s: String| s@);
    let ghost h3 = third@.map_values(|s: String| s@);
    candidates.append(&mut more);
    candidates.append(&mut third);
    let ghost hs = h1 + h2 + h3;
    proof {
        assert(candidates@.map_values(|s: String| s@) =~~= hs);
    }
    let mut r: Vec<String> = Vec::new();
    let mut i: usize = 0;
    proof {
        assert(hs.skip(0) =~= hs);
        assert(r@.map_values(|s: String| s@) =~= Seq::<Seq<char>>::empty());
        assert(add_links(r@.map_values(|s: String| s@), hs.skip(0)) =~~= add_links(
            Seq::empty(),
            hs,
        ));
    }
    while i < candidates.len()
        invariant
            hs == candidates@.map_values(|s: String| s@),
            i <= candidates@.len(),
            add_links(r@.map_values(|s: String| s@), hs.skip(i as int)) =~~= add_links(
                Seq::empty(),
                hs,
            ),
        decreases candidates@.len() - i,
    {
        proof {
            assert(hs.skip(i as int).len() > 0);
            assert(hs.skip(i as int)[0] == hs[i as int]);
            assert(hs.skip(i as int).drop_first() =~= hs.skip(i as int + 1));
        }
        let h = &candidates[i];
        let external = starts_with_str(h.as_str(), "http") && !contains_str(
            h.as_str(),
            "wiki.vintagestory.at",
        );
        let ok = !external && !contains_str(h.as_str(), "Special:") && !contains_str(
            h.as_str(),
            "File:",
        ) && !contains_str(h.as_str(), "Category:") && !contains_str(h.as_str(), "#");
        proof {
            assert(h@ == hs[i as int]);
            assert(ok == link_ok(hs[i as int]));
        }
        let ghost rv0 = r@.map_values(|s: String| s@);
        if ok {
            let normalized = if starts_with_str(h.as_str(), "/wiki/") {
                let n = h.as_str().unicode_len();
                proof {
                    reveal_strlit("/wiki/");
                    assert("/wiki/"@.len() == 6);
                }
                let mut t = "/index.php?title=".to_owned();
                t.append(h.as_str().substring_char(6, n));
                t
            } else {
                let t = h.clone();
                t
            };
            proof {
                reveal_strlit("/wiki/");
                assert("/wiki/"@.len() == 6);
                assert(normalized@ == normalize_link(hs[i as int]));
            }
            if !vec_contains_string(&r, &normalized) {
                let ghost old_map = r@.map_values(|s: String| s@);
                r.push(normalized);
                proof {
                    assert(r@.map_values(|s: String| s@) =~~= old_map.push(
                        normalize_link(hs[i as int]),
                    ));
                }
            }
        }
        proof {
            let rv = r@.map_values(|s: String| s@);
            if link_ok(hs[i as int]) && !rv0.contains(normalize_link(hs[i as int])) {
                assert(rv =~~= rv0.push(normalize_link(hs[i as int])));
            } else {
                assert(rv =~~= rv0);
            }
            assert(add_links(rv0, hs.skip(i as int)) == add_links(
                rv,
                hs.skip(i as int).drop_first(),
            ));
            assert(add_links(rv, hs.skip(i as int + 1)) =~~= add_links(Seq::empty(), hs));
        }
        i = i + 1;
    }
    proof {
        assert(hs.skip(hs.len() as int) =~= Seq::<Seq<char>>::empty());
    }
    r
}

/// The suffix of `u` after its last slash (all of `u` when it has none).
pub open spec fn last_segment(u: Seq<char>) -> Seq<char>
    decreases u.len(),
{
    if u.len() == 0 {
        u
    } else if u.last() == '/' {
        Seq::empty()
    } else {
        last_segment(u.drop_last()).push(u.last())
    }
}

/// `u` with every underscore replaced by a space.
pub open spec fn underscores_to_spaces(u: Seq<char>) -> Seq<char> {
    u.map_values(
        |c: char|
            if c == '_' {
                ' '
            } else {
                c
            },
    )
}

/// The page title: the first heading's text, or, when the page has none,
/// the last segment of its address with underscores turned into spaces; in
/// both cases trimmed.
pub open spec fn title_spec(html: Seq<char>, url: Seq<char>) -> Seq<char> {
    let ts = texts_in(html, "h1#firstHeading, h1.firstHeading, .mw-page-title-main"@);
    if ts.len() > 0 {
        trim_spec(ts[0])
    } else {
        trim_spec(underscores_to_spaces(last_segment(url)))
    }
}

proof fn lemma_last_segment_at(u: Seq<char>, p: int)
    requires
        0 <= p < u.len(),
        u[p] == '/',
        forall|i: int| p < i < u.len() ==> u[i] != '/',
    ensures
        last_segment(u) == u.skip(p + 1),
    decreases u.len(),
{
    if p == u.len() - 1 {
        assert(u.last() == '/');
        assert(u.skip(p + 1) =~= Seq::<char>::empty());
    } else {
        assert(u.last() != '/');
        lemma_last_segment_at(u.drop_last(), p);
        assert(last_segment(u) == last_segment(u.drop_last()).push(u.last()));
        assert(u.drop_last().skip(p + 1).push(u.last()) =~= u.skip(p + 1));
    }
}

proof fn lemma_last_segment_none(u: Seq<char>)
    requires
        forall|i: int| 0 <= i < u.len() ==> u[i] != '/',
    ensures
        last_segment(u) == u,
    decreases u.len(),
{
    if u.len() > 0 {
        lemma_last_segment_none(u.drop_last());
        assert(last_segment(u.drop_last()).push(u.last()) =~= u);
    }
}

/// Extracts the page title per [`title_spec`].
pub fn extract_title(html: &str, url: &str) -> (r: String)
    ensures
        r@ == title_spec(html@, url@),
{
    let texts = select_texts(html, "h1#firstHeading, h1.firstHeading, .mw-page-title-main");
    if texts.len() > 0 {
        let r = trim_str(texts[0].as_str());
        proof {
            assert(texts@.map_values(|s: String| s@)[0] == texts@[0]@);
        }
        return r;
    }
    let n = url.unicode_len();
    let mut p: usize = 0;
    let mut i0: usize = 0;
    while i0 < n
        invariant
            n == url@.len(),
            i0 <= n,
            p == 0 ==> forall|t: int| 0 <= t < i0 ==> url@[t] != '/',
            p > 0 ==> p <= i0 && url@[p - 1] == '/' && (forall|t: int|
                p <= t < i0 ==> url@[t] != '/'),
        decreases n - i0,
    {
        if url.get_char(i0) == '/' {
            p = i0 + 1;
        }
        i0 = i0 + 1;
    }
    proof {
        if p > 0 {
            lemma_last_segment_at(url@, p - 1);
        } else {
            lemma_last_segment_none(url@);
            assert(url@.skip(0) =~= url@);
        }
    }
    let seg = url.substring_char(p, n);
    let m = seg.unicode_len();
    let mut replaced = String::new();
    let mut i: usize = 0;
    while i < m
        invariant
            m == seg@.len(),
            i <= m,
            replaced@ =~= underscores_to_spaces(seg@).take(i as int),
        decreases m - i,
    {
        let c = seg.get_char(i);
        let c2 = if c == '_' {
            ' '
        } else {
            c
        };
        push_char(&mut replaced, c2);
        proof {
            assert(underscores_to_spaces(seg@)[i as int] == c2);
            assert(replaced@ =~= underscores_to_spaces(seg@).take(i as int + 1));
        }
        i = i + 1;
    }
    proof {
        assert(underscores_to_spaces(seg@).take(m as int) =~= underscores_to_spaces(seg@));
        assert(seg@ == last_segment(url@));
    }
    trim_str(replaced.as_str())
}

} // verus!

use crate::index::UsageIndex;
use crate::model::views_of;
use crate::render::{hex_digit, push_char};
use crate::usage::UsageEntry;
use vstd::prelude::*;
use vstd::string::StrSliceExecFns;
use vstd::string::StringExecFns;

verus! {

/// The value that the 64-bit xxh3 hash assigns to a string's text. The hash
/// itself is computed by the outside crate; this name only fixes that equal
/// strings get equal anchors.
pub uninterp spec fn xxh3_of(s: Seq<char>) -> u64;

/// Relies on xxhash_rust::xxh3::xxh3_64: with the default secret the hash is
/// a pure function of the input bytes, so of the string's characters.
#[verifier::external_body]
fn xxh3_hash(s: &str) -> (r: u64)
    ensures
        r == xxh3_of(s@),
{
    xxhash_rust::xxh3::xxh3_64(s.as_bytes())
}

/// Lowercase hexadecimal rendering of a number, without leading zeros.
pub open spec fn hex_of(n: nat) -> Seq<char>
    decreases n,
{
    if n < 16 {
        seq![hex_digit(n)]
    } else {
        hex_of(n / 16) + seq![hex_digit(n % 16)]
    }
}

/// Decimal rendering of a number, without leading zeros.
pub open spec fn dec_of(n: nat) -> Seq<char>
    decreases n,
{
    if n < 10 {
        seq![hex_digit(n)]
    } else {
        dec_of(n / 10) + seq![hex_digit(n % 10)]
    }
}

fn hex_digit_char(d: u8) -> (c: char)
    requires
        d < 16,
    ensures
        c == hex_digit(d as nat),
{
    if d < 10 {
        (d + 48) as char
    } else {
        (d + 87) as char
    }
}

fn format_hex(n: u64) -> (r: String)
    ensures
        r@ == hex_of(n as nat),
    decreases n,
{
    if n < 16 {
        let mut s = String::new();
        let c = hex_digit_char(n as u8);
        push_char(&mut s, c);
        proof {
            assert(s@ =~= hex_of(n as nat));
        }
        s
    } else {
        let mut s = format_hex(n / 16);
        let c = hex_digit_char((n % 16) as u8);
        push_char(&mut s, c);
        proof {
            assert(s@ =~= hex_of(n as nat));
        }
        s
    }
}

fn format_dec(n: usize) -> (r: String)
    ensures
        r@ == dec_of(n as nat),
    decreases n,
{
    if n < 10 {
        let mut s = String::new();
        let c = hex_digit_char(n as u8);
        push_char(&mut s, c);
        proof {
            assert(s@ =~= dec_of(n as nat));
        }
        s
    } else {
        let mut s = format_dec(n / 10);
        let c = hex_digit_char((n % 10) as u8);
        push_char(&mut s, c);
        proof {
            assert(s@ =~= dec_of(n as nat));
        }
        s
    }
}

/// The anchor a property heading gets for a given name hash: a fixed prefix
/// and the hash in lowercase hexadecimal.
pub open spec fn anchor_of(h: u64) -> Seq<char> {
    "selector-"@ + hex_of(h as nat)
}

/// Build the anchor id for a given name hash. Distinct names may collide on
/// one anchor; collisions are not corrected for.
pub fn anchor_id(hash: u64) -> (r: String)
    ensures
        r@ == anchor_of(hash),
{
    let h = format_hex(hash);
    let r = String::from_str("selector-").concat(h.as_str());
    r
}

pub open spec fn li_items(ls: Seq<Seq<char>>) -> Seq<char>
    decreases ls.len(),
{
    if ls.len() == 0 {
        Seq::empty()
    } else {
        "<li>"@ + ls.first() + "</li>"@ + li_items(ls.drop_first())
    }
}

/// One property's section: its heading, carrying the anchor id and the usage
/// count, then the list of labels. Labels are injected as they stand.
pub open spec fn section_of(e: UsageEntry) -> Seq<char> {
    "<h2 id=\""@ + anchor_of(xxh3_of(e.name@)) + "\">"@ + e.name@ + " <span class='count'>("@
        + dec_of(e.labels@.len() as nat) + ")</span></h2>"@ + "<ul>"@ + li_items(
        views_of(e.labels@),
    ) + "</ul>"@
}

pub open spec fn sections_of(es: Seq<UsageEntry>) -> Seq<char>
    decreases es.len(),
{
    if es.len() == 0 {
        Seq::empty()
    } else {
        section_of(es.first()) + sections_of(es.drop_first())
    }
}

/// One property's navigation link to its section anchor.
pub open spec fn minimap_item(e: UsageEntry) -> Seq<char> {
    "<a href=\"#"@ + anchor_of(xxh3_of(e.name@)) + "\">"@ + e.name@ + "</a>"@
}

pub open spec fn minimap_of(es: Seq<UsageEntry>) -> Seq<char>
    decreases es.len(),
{
    if es.len() == 0 {
        Seq::empty()
    } else {
        minimap_item(es.first()) + minimap_of(es.drop_first())
    }
}

/// The document shell, up to the navigation list's insertion point.
pub const HTML_HEAD: &'static str = r#"
<!doctype html>
<html lang="en">
  <head>
    <meta charset="UTF-8" />
    <title>CSS Custom Properties Audit</title>
    <link
      rel="stylesheet"
      href="https://unpkg.com/@dryan-llc/mnml.css"
      crossorigin="anonymous"
    />
    <meta name="viewport" content="width=device-width, initial-scale=1" />
    <style>
        html {
            scroll-behavior: smooth;
        }

        .audit-grid {
            display: grid;
            row-gap: 2rem;
            column-gap: 2rem;

            @container --mnml-container (width >= 48rem) {
                grid-template-columns: 1fr 3fr;            
            }
        }

        .site-header {
            grid-column: 1 / -1;
            display: grid;
            row-gap: 1rem;

            h1 {
                margin-block: 0;
            }
        }

        h2, css-audit-minimap {
            font-family: var(--mnml--font--monospace);
        }

        h2 ~ h2 {
            margin-block-start: 3rem;
        }

        h2 .count {
            font-family: var(--mnml--font--sans);
            font-size: 0.75em;
        }

        css-audit-minimap {
            display: flex;
            flex-direction: column;
            row-gap: 1rem;

            a.dimmed {
                pointer-events: none;
                opacity: 0.5;
            }
        }

        css-audit-search {
            display: flow-root;

            &:not(:defined) {
                display: none;
            }

            form {
                display: grid;
                grid-template-columns: 1fr auto;
                column-gap: 1rem;
            }
        }
    </style>
  </head>
  <body>
    <div class="container">
        <div class="audit-grid">
            <header class="site-header">
                <h1>CSS Custom Properties Audit</h1>

                <css-audit-search>
                    <form method="GET" action=".">
                        <label for="search" class="reader-only">Search</label>
                        <input type="search" id="search" name="search" />
                        <button type="submit" data-color="primary">Search</button>
                    </form>
                </css-audit-search>
            </header>

            <css-audit-minimap role="navigation">"#;

/// The shell between the navigation list and the main content's insertion
/// point.
pub const HTML_MID: &'static str = r#"</css-audit-minimap>

            <main>"#;

/// The rest of the shell, from the main content's closing tag on.
pub const HTML_TAIL: &'static str = r#"</main>

            <script type="module">
                class CssAuditMinimap extends HTMLElement {
                    connectedCallback() {}
                }

                customElements.define("css-audit-minimap", CssAuditMinimap);

                class CssAuditSearch extends HTMLElement {
                    connectedCallback() {
                        this.form = this.querySelector("form");
                        this.input = this.querySelector("input");
                        this.button = this.querySelector("button");

                        this.form.addEventListener("submit", this.handleSubmit.bind(this));
                    }

                    handleSubmit(event) {
                        event.preventDefault();
                        const search = this.input.value;
                        const headings = Array.from(document.querySelectorAll("h2"));
                        const matchingHeadings = headings.filter(heading => heading.textContent.includes(search));

                        if (matchingHeadings.length === 0) {
                            alert("No matches found");
                            return;
                        }

                        const matchingMinimapLinks = matchingHeadings.map(heading => {
                            const id = heading.getAttribute("id");
                            return document.querySelector(`a[href='#${id}']`);
                        });

                        const nonMatchingMinimapLinks = Array.from(document.querySelectorAll("css-audit-minimap a")).filter(link => !matchingMinimapLinks.includes(link));

                        matchingHeadings.forEach(heading => {
                            heading.removeAttribute('hidden');
                            heading.nextElementSibling.closest('ul')?.removeAttribute('hidden');
                        });

                        headings.filter(heading => !matchingHeadings.includes(heading)).forEach(heading => {
                            heading.setAttribute('hidden', true);
                            heading.nextElementSibling.closest('ul')?.setAttribute('hidden', true);
                        });

                        matchingMinimapLinks.forEach(link => link.classList.remove('dimmed'));
                        nonMatchingMinimapLinks.forEach(link => link.classList.add('dimmed'));
                    }
                }

                customElements.define("css-audit-search", CssAuditSearch);
            </script>
        </div>
    </div>
  </body>
</html>
"#;

/// The HTML renderer's entire output for a finalized index: the shell with
/// the navigation links and the per-property sections injected.
pub open spec fn html_of(entries: Seq<UsageEntry>) -> Seq<char> {
    HTML_HEAD@ + minimap_of(entries) + HTML_MID@ + sections_of(entries) + HTML_TAIL@
}

proof fn lemma_li_items_push(ls: Seq<Seq<char>>, x: Seq<char>)
    ensures
        li_items(ls.push(x)) == li_items(ls) + ("<li>"@ + x + "</li>"@),
    decreases ls.len(),
{
    if ls.len() == 0 {
        assert(ls.push(x).drop_first() =~= ls);
        assert(ls.push(x).first() == x);
        assert(li_items(ls.push(x)) =~= li_items(ls) + ("<li>"@ + x + "</li>"@));
    } else {
        assert(ls.push(x).drop_first() =~= ls.drop_first().push(x));
        assert(ls.push(x).first() == ls.first());
        lemma_li_items_push(ls.drop_first(), x);
        assert(li_items(ls.push(x)) =~= li_items(ls) + ("<li>"@ + x + "</li>"@));
    }
}

proof fn lemma_sections_push(es: Seq<UsageEntry>, e: UsageEntry)
    ensures
        sections_of(es.push(e)) == sections_of(es) + section_of(e),
        minimap_of(es.push(e)) == minimap_of(es) + minimap_item(e),
    decreases es.len(),
{
    if es.len() == 0 {
        assert(es.push(e).drop_first() =~= es);
        assert(es.push(e).first() == e);
        assert(sections_of(es.push(e)) =~= sections_of(es) + section_of(e));
        assert(minimap_of(es.push(e)) =~= minimap_of(es) + minimap_item(e));
    } else {
        assert(es.push(e).drop_first() =~= es.drop_first().push(e));
        assert(es.push(e).first() == es.first());
        lemma_sections_push(es.drop_first(), e);
        assert(sections_of(es.push(e)) =~= sections_of(es) + section_of(e));
        assert(minimap_of(es.push(e)) =~= minimap_of(es) + minimap_item(e));
    }
}

/// Render the finalized index as a static HTML document: the shell, with one
/// heading and label list per property injected into the main content, and a
/// navigation link per property injected into the minimap.
#[verifier::rlimit(100)]
#[verifier::spinoff_prover]
pub fn render_html(idx: &UsageIndex) -> (r: String)
    ensures
        r@ == html_of(idx.entries@),
{
    let entries = &idx.entries;
    let mut sections = String::new();
    let mut minimap = String::new();
    let mut i: usize = 0;
    while i < entries.len()
        invariant
            i <= entries@.len(),
            sections@ == sections_of(entries@.take(i as int)),
            minimap@ == minimap_of(entries@.take(i as int)),
        decreases entries@.len() - i,
    {
        let e = &entries[i];
        let hash = xxh3_hash(e.name.as_str());
        let id = anchor_id(hash);
        let ghost sec_base = sections@;
        sections.append("<h2 id=\"");
        sections.append(id.as_str());
        sections.append("\">");
        sections.append(e.name.as_str());
        sections.append(" <span class='count'>(");
        let cnt = format_dec(e.labels.len());
        sections.append(cnt.as_str());
        sections.append(")</span></h2>");
        sections.append("<ul>");
        let ghost ul_base = sections@;
        let mut j: usize = 0;
        while j < e.labels.len()
            invariant
                j <= e.labels@.len(),
                sections@ == ul_base + li_items(views_of(e.labels@.take(j as int))),
            decreases e.labels@.len() - j,
        {
            proof {
                if j == 0 {
                    assert(sections@ =~= ul_base + li_items(views_of(e.labels@.take(0))));
                }
            }
            sections.append("<li>");
            sections.append(e.labels[j].as_str());
            sections.append("</li>");
            proof {
                lemma_li_items_push(views_of(e.labels@.take(j as int)), e.labels@[j as int]@);
                assert(views_of(e.labels@.take(j + 1 as int)) =~= views_of(
                    e.labels@.take(j as int),
                ).push(e.labels@[j as int]@));
                assert(sections@ =~= ul_base + li_items(views_of(e.labels@.take(j + 1 as int))));
            }
            j += 1;
        }
        sections.append("</ul>");
        minimap.append("<a href=\"#");
        minimap.append(id.as_str());
        minimap.append("\">");
        minimap.append(e.name.as_str());
        minimap.append("</a>");
        proof {
            assert(e.labels@.take(e.labels@.len() as int) =~= e.labels@);
            lemma_sections_push(entries@.take(i as int), entries@[i as int]);
            assert(entries@.take(i + 1 as int) =~= entries@.take(i as int).push(
                entries@[i as int],
            ));
            assert(sections@ =~= sections_of(entries@.take(i + 1 as int)));
            assert(minimap@ =~= minimap_of(entries@.take(i + 1 as int)));
        }
        i += 1;
    }
    let mut out = String::from_str(HTML_HEAD);
    out.append(minimap.as_str());
    out.append(HTML_MID);
    out.append(sections.as_str());
    out.append(HTML_TAIL);
    proof {
        assert(entries@.take(entries@.len() as int) =~= entries@);
        assert(out@ =~= html_of(entries@));
    }
    out
}

} // verus!

use simple_pastebin::database::{
    convert_urls_to_links, created_page, deleted_page, escape_html, fill_paste_template,
    paste_page, raw_page, render_paste_template, DeleteOutcome, Paste, PasteLookup,
};

fn found(id: i64, content: &str) -> PasteLookup {
    PasteLookup::Found(Paste { id, content: content.to_string() })
}

const TEMPLATE: &str = "<p>Paste <span id=\"paste-id\"></span></p><div class=\"data\" id=\"fileContent\" aria-live=\"polite\"></div>";

#[test]
fn raw_page_gives_the_text() {
    assert_eq!(raw_page(found(3, "<b>hi</b>")), "<b>hi</b>");
    assert_eq!(raw_page(PasteLookup::Missing), "The requested paste does not exist");
    assert_eq!(raw_page(PasteLookup::Failed), "Could not retrieve the paste.");
}

#[test]
fn created_page_links_to_the_paste() {
    assert_eq!(
        created_page(Some(42), "0.0.0.0", 6060),
        "Paste successful, view it at http://0.0.0.0:6060/42"
    );
    assert_eq!(created_page(Some(-7), "h", 0), "Paste successful, view it at http://h:0/-7");
    assert_eq!(created_page(None, "0.0.0.0", 6060), "Failed to create paste");
}

#[test]
fn created_page_extreme_ids() {
    assert_eq!(
        created_page(Some(i64::MIN), "a", 65535),
        format!("Paste successful, view it at http://a:65535/{}", i64::MIN)
    );
    assert_eq!(
        created_page(Some(i64::MAX), "a", 1),
        format!("Paste successful, view it at http://a:1/{}", i64::MAX)
    );
}

#[test]
fn deleted_page_messages() {
    assert_eq!(deleted_page(5, DeleteOutcome::Deleted(1)), "Paste 5 deleted.");
    assert_eq!(deleted_page(5, DeleteOutcome::Deleted(0)), "Paste not found.");
    assert_eq!(deleted_page(5, DeleteOutcome::ConnectionFailed), "Database connection failed.");
    assert_eq!(deleted_page(5, DeleteOutcome::DeleteFailed), "Failed to delete paste.");
}

#[test]
fn escape_html_replaces_markup() {
    assert_eq!(
        escape_html("<a href=\"x\">Tom & 'Jerry'</a>"),
        "&lt;a href=&quot;x&quot;&gt;Tom &amp; &#39;Jerry&#39;&lt;/a&gt;"
    );
    assert_eq!(escape_html("plain"), "plain");
    assert_eq!(escape_html("&amp;"), "&amp;amp;");
}

#[test]
fn escape_html_matches_five_replacements() {
    let text = "a<b>&\"c'&lt;";
    let chained = text
        .replace('&', "&amp;")
        .replace('<', "&lt;")
        .replace('>', "&gt;")
        .replace('"', "&quot;")
        .replace('\'', "&#39;");
    assert_eq!(escape_html(text), chained);
}

#[test]
fn urls_become_links() {
    assert_eq!(
        convert_urls_to_links("see http://a.b/c?d=1 now"),
        "see <a href=\"http://a.b/c?d=1\" target=\"_blank\" rel=\"noopener noreferrer\">http://a.b/c?d=1</a> now"
    );
    assert_eq!(
        convert_urls_to_links("https://x.y"),
        "<a href=\"https://x.y\" target=\"_blank\" rel=\"noopener noreferrer\">https://x.y</a>"
    );
    assert_eq!(convert_urls_to_links("no link here, http:// alone"), "no link here, http:// alone");
}

#[test]
fn template_is_filled() {
    assert_eq!(
        fill_paste_template(TEMPLATE, 9, "text"),
        "<p>Paste 9</p><div class=\"data\" id=\"fileContent\" aria-live=\"polite\">text</div>"
    );
}

#[test]
fn rendered_paste_is_escaped_and_linked() {
    let page = render_paste_template(Some(TEMPLATE.to_string()), 2, "<i> http://q.r");
    assert_eq!(
        page,
        "<p>Paste 2</p><div class=\"data\" id=\"fileContent\" aria-live=\"polite\">&lt;i&gt; <a href=\"http://q.r\" target=\"_blank\" rel=\"noopener noreferrer\">http://q.r</a></div>"
    );
}

#[test]
fn missing_template_gives_error_page() {
    let page = render_paste_template(None, 2, "x");
    assert_eq!(page, "<h1>Error</h1><p>Could not load the paste template.</p>");
}

#[test]
fn paste_page_cases() {
    assert_eq!(
        paste_page(found(4, "hello"), Some(TEMPLATE.to_string())),
        "<p>Paste 4</p><div class=\"data\" id=\"fileContent\" aria-live=\"polite\">hello</div>"
    );
    assert_eq!(
        paste_page(PasteLookup::Missing, None),
        "<h1>404 Not Found</h1><p>The requested paste does not exist.</p>"
    );
    assert_eq!(
        paste_page(PasteLookup::Failed, None),
        "<h1>Error</h1><p>Could not retrieve the paste.</p>"
    );
}

fn link(u: &str) -> String {
    format!("<a href=\"{}\" target=\"_blank\" rel=\"noopener noreferrer\">{}</a>", u, u)
}

#[test]
fn links_are_found_leftmost_and_greedy() {
    assert_eq!(convert_urls_to_links("see https://a.b/c now"), format!("see {} now", link("https://a.b/c")));
    assert_eq!(convert_urls_to_links("xhttp://a,b"), format!("x{}", link("http://a,b")));
    assert_eq!(
        convert_urls_to_links("http://a http://b\thttps://c"),
        format!("{} {}\t{}", link("http://a"), link("http://b"), link("https://c"))
    );
    assert_eq!(convert_urls_to_links("http://a\u{3000}b"), format!("{}\u{3000}b", link("http://a")));
    assert_eq!(convert_urls_to_links("https:// x https:/y"), "https:// x https:/y");
    assert_eq!(convert_urls_to_links("http://é→"), link("http://é→"));
    assert_eq!(convert_urls_to_links("hthttp://z"), format!("ht{}", link("http://z")));
}

#[test]
fn escaped_text_links_stay_inside_their_attribute() {
    let page = render_paste_template(None, 1, "x");
    assert_eq!(page, "<h1>Error</h1><p>Could not load the paste template.</p>");
    let text = escape_html("http://a\"onclick='x' <b>");
    assert_eq!(
        convert_urls_to_links(&text),
        format!("{} &lt;b&gt;", link("http://a&quot;onclick=&#39;x&#39;"))
    );
}

use vstd::prelude::*;
use crate::text::{
    decimal, i64_to_decimal, is_ascii_digit, is_white_space, lemma_parse_reads_decimal,
    lemma_signed_decimal_reads_back, parse_u64, push_char, replace_all, replaced,
    signed_decimal, to_chars, u64_to_decimal,
};

verus! {

/// A stored paste.
#[derive(Debug)]
pub struct Paste {
    pub id: i64,
    pub content: String,
}

/// What looking a paste up in the store gave.
#[derive(Debug)]
pub enum PasteLookup {
    Found(Paste),
    Missing,
    Failed,
}

/// What deleting a paste from the store gave: the store could not be
/// opened, the deletion failed, or it removed this many rows.
#[derive(Debug)]
pub enum DeleteOutcome {
    ConnectionFailed,
    DeleteFailed,
    Deleted(usize),
}

/// The body served for `/raw/{id}`: the paste's text as it was stored.
pub fn raw_page(lookup: PasteLookup) -> (r: String)
    ensures
        match lookup {
            PasteLookup::Found(p) => r@ == p.content@,
            PasteLookup::Missing => r@ == "The requested paste does not exist"@,
            PasteLookup::Failed => r@ == "Could not retrieve the paste."@,
        },
{
    match lookup {
        PasteLookup::Found(p) => p.content,
        PasteLookup::Missing => "The requested paste does not exist".to_owned(),
        PasteLookup::Failed => "Could not retrieve the paste.".to_owned(),
    }
}

/// The address of paste `id` on a server at `address` and `port`.
pub open spec fn paste_link(address: Seq<char>, port: u16, id: int) -> Seq<char> {
    "http://"@ + address + ":"@ + decimal(port as nat) + "/"@ + signed_decimal(id)
}

/// The answer to `/new` once the store has been asked to keep the paste:
/// a link to the new paste, or a failure notice.
pub fn created_page(created: Option<i64>, address: &str, port: u16) -> (r: String)
    ensures
        match created {
            Some(id) => r@ == "Paste successful, view it at "@ + paste_link(
                address@,
                port,
                id as int,
            ),
            None => r@ == "Failed to create paste"@,
        },
{
    match created {
        Some(id) => {
            proof {
                reveal_strlit("Paste successful, view it at http://");
                reveal_strlit("Paste successful, view it at ");
                reveal_strlit("http://");
                assert("Paste successful, view it at http://"@ =~= "Paste successful, view it at "@
                    + "http://"@);
            }
            let mut r = "Paste successful, view it at http://".to_owned();
            r.append(address);
            r.append(":");
            let port_text = u64_to_decimal(port as u64);
            r.append(port_text.as_str());
            r.append("/");
            let id_text = i64_to_decimal(id);
            r.append(id_text.as_str());
            r
        },
        None => "Failed to create paste".to_owned(),
    }
}

/// The link handed out for a new paste ends in its number, and for the
/// non-negative numbers the store hands out that last part reads back as
/// the same number.
pub proof fn lemma_link_names_the_paste(address: Seq<char>, port: u16, id: int)
    requires
        0 <= id <= i64::MAX,
    ensures
        paste_link(address, port, id) == "http://"@ + address + ":"@ + decimal(port as nat) + "/"@
            + decimal(id as nat),
        parse_u64(decimal(id as nat)) == Some(id as nat),
{
    lemma_parse_reads_decimal(id as nat);
}

/// The answer to `/{id}/delete`.
pub fn deleted_page(id: i64, outcome: DeleteOutcome) -> (r: String)
    ensures
        match outcome {
            DeleteOutcome::ConnectionFailed => r@ == "Database connection failed."@,
            DeleteOutcome::DeleteFailed => r@ == "Failed to delete paste."@,
            DeleteOutcome::Deleted(count) => if count > 0 {
                r@ == "Paste "@ + signed_decimal(id as int) + " deleted."@
            } else {
                r@ == "Paste not found."@
            },
        },
{
    match outcome {
        DeleteOutcome::ConnectionFailed => "Database connection failed.".to_owned(),
        DeleteOutcome::DeleteFailed => "Failed to delete paste.".to_owned(),
        DeleteOutcome::Deleted(count) => {
            if count > 0 {
                let mut r = "Paste ".to_owned();
                let id_text = i64_to_decimal(id);
                r.append(id_text.as_str());
                r.append(" deleted.");
                r
            } else {
                "Paste not found.".to_owned()
            }
        },
    }
}

/// How `escape_html` writes one character: the five characters with a
/// meaning in markup become entities, every other character stays.
pub open spec fn escape_char(c: char) -> Seq<char> {
    if c == '&' {
        seq!['&', 'a', 'm', 'p', ';']
    } else if c == '<' {
        seq!['&', 'l', 't', ';']
    } else if c == '>' {
        seq!['&', 'g', 't', ';']
    } else if c == '"' {
        seq!['&', 'q', 'u', 'o', 't', ';']
    } else if c == '\'' {
        seq!['&', '#', '3', '9', ';']
    } else {
        seq![c]
    }
}

/// `s` with each character written as `escape_char` writes it.
pub open spec fn escaped(s: Seq<char>) -> Seq<char>
    decreases s.len(),
{
    if s.len() == 0 {
        Seq::empty()
    } else {
        escaped(s.drop_last()) + escape_char(s.last())
    }
}

/// A character that would be read as markup, or as the start of a quoted
/// attribute, if it stood in a page unescaped.
pub open spec fn is_markup_char(c: char) -> bool {
    c == '<' || c == '>' || c == '"' || c == '\''
}

/// Escaped text holds no `<`, `>`, `"` or `'`: it cannot open a tag or
/// close an attribute of the page it is put in.
pub proof fn lemma_escaped_has_no_markup(s: Seq<char>)
    ensures
        forall|i: int| 0 <= i < escaped(s).len() ==> !is_markup_char(#[trigger] escaped(s)[i]),
    decreases s.len(),
{
    if s.len() > 0 {
        lemma_escaped_has_no_markup(s.drop_last());
        let a = escaped(s.drop_last());
        let b = escape_char(s.last());
        assert forall|i: int| 0 <= i < escaped(s).len() implies !is_markup_char(
            #[trigger] escaped(s)[i],
        ) by {
            if i < a.len() {
                assert(escaped(s)[i] == a[i]);
            } else {
                assert(escaped(s)[i] == b[i - a.len()]);
            }
        }
    }
}

/// Escaping works character by character: escaping two texts one after
/// the other gives the escape of the two joined.
pub proof fn lemma_escaped_concat(a: Seq<char>, b: Seq<char>)
    ensures
        escaped(a + b) == escaped(a) + escaped(b),
    decreases b.len(),
{
    if b.len() == 0 {
        assert(a + b =~= a);
        assert(escaped(a) + escaped(b) =~= escaped(a));
    } else {
        assert((a + b).drop_last() =~= a + b.drop_last());
        assert((a + b).last() == b.last());
        lemma_escaped_concat(a, b.drop_last());
        assert(escaped(a) + escaped(b.drop_last()) + escape_char(b.last()) =~= escaped(a) + (
        escaped(b.drop_last()) + escape_char(b.last())));
    }
}

/// The five entities `escape_html` writes.
pub open spec fn is_entity(e: Seq<char>) -> bool {
    ||| e == seq!['&', 'a', 'm', 'p', ';']
    ||| e == seq!['&', 'l', 't', ';']
    ||| e == seq!['&', 'g', 't', ';']
    ||| e == seq!['&', 'q', 'u', 'o', 't', ';']
    ||| e == seq!['&', '#', '3', '9', ';']
}

/// `s` has one of the five entities at position `i`.
pub open spec fn entity_at(s: Seq<char>, i: int) -> bool {
    exists|len: int| 1 <= len && i + len <= s.len() && #[trigger] is_entity(s.subrange(i, i + len))
}

/// Every `&` in escaped text begins one of the five entities, so the text
/// reads back unambiguously.
pub proof fn lemma_escaped_ampersands_begin_entities(s: Seq<char>)
    ensures
        forall|i: int|
            0 <= i < escaped(s).len() && escaped(s)[i] == '&' ==> entity_at(escaped(s), i),
    decreases s.len(),
{
    if s.len() > 0 {
        lemma_escaped_ampersands_begin_entities(s.drop_last());
        let a = escaped(s.drop_last());
        let b = escape_char(s.last());
        let t = escaped(s);
        assert(t == a + b);
        assert forall|i: int| 0 <= i < t.len() && t[i] == '&' implies entity_at(t, i) by {
            if i < a.len() {
                assert(a[i] == t[i]);
                assert(entity_at(a, i));
                let len = choose|len: int|
                    1 <= len && i + len <= a.len() && #[trigger] is_entity(a.subrange(i, i + len));
                assert(t.subrange(i, i + len) =~= a.subrange(i, i + len));
            } else {
                assert(b[i - a.len()] == '&');
                let c = s.last();
                if c != '&' && c != '<' && c != '>' && c != '"' && c != '\'' {
                    assert(b =~= seq![c]);
                    assert(false);
                }
                assert(i == a.len()) by {
                    if i > a.len() {
                        assert(b[i - a.len()] != '&');
                    }
                }
                assert(t.subrange(i, i + b.len()) =~= b);
                assert(is_entity(t.subrange(i, i + b.len())));
            }
        }
    }
}

/// `s` with each `c` replaced by `rep`, read from the front.
pub open spec fn replace_char(s: Seq<char>, c: char, rep: Seq<char>) -> Seq<char>
    decreases s.len(),
{
    if s.len() == 0 {
        s
    } else {
        (if s[0] == c {
            rep
        } else {
            seq![s[0]]
        }) + replace_char(s.drop_first(), c, rep)
    }
}

proof fn lemma_replaced_single(s: Seq<char>, c: char, rep: Seq<char>)
    ensures
        replaced(s, seq![c], rep) == replace_char(s, c, rep),
    decreases s.len(),
{
    if s.len() > 0 {
        if s[0] == c {
            assert(s.take(1) =~= seq![c]);
        } else {
            assert(s.take(1)[0] != seq![c][0]);
        }
        assert(s.skip(1) =~= s.drop_first());
        lemma_replaced_single(s.drop_first(), c, rep);
    }
}

proof fn lemma_replace_char_concat(a: Seq<char>, b: Seq<char>, c: char, rep: Seq<char>)
    ensures
        replace_char(a + b, c, rep) == replace_char(a, c, rep) + replace_char(b, c, rep),
    decreases a.len(),
{
    if a.len() == 0 {
        assert(a + b =~= b);
        assert(replace_char(a, c, rep) =~= Seq::<char>::empty());
        assert(Seq::<char>::empty() + replace_char(b, c, rep) =~= replace_char(b, c, rep));
    } else {
        assert((a + b)[0] == a[0]);
        assert((a + b).drop_first() =~= a.drop_first() + b);
        lemma_replace_char_concat(a.drop_first(), b, c, rep);
        let head = if a[0] == c {
            rep
        } else {
            seq![a[0]]
        };
        assert(head + (replace_char(a.drop_first(), c, rep) + replace_char(b, c, rep)) =~= (head
            + replace_char(a.drop_first(), c, rep)) + replace_char(b, c, rep));
    }
}

proof fn lemma_replace_char_absent(s: Seq<char>, c: char, rep: Seq<char>)
    requires
        forall|i: int| 0 <= i < s.len() ==> s[i] != c,
    ensures
        replace_char(s, c, rep) == s,
    decreases s.len(),
{
    if s.len() > 0 {
        assert(s[0] != c);
        assert forall|i: int| 0 <= i < s.drop_first().len() implies s.drop_first()[i] != c by {
            assert(s.drop_first()[i] == s[i + 1]);
        }
        lemma_replace_char_absent(s.drop_first(), c, rep);
        assert(seq![s[0]] + s.drop_first() =~= s);
    }
}

/// The five replacements `escape_html` is made of, applied in order.
pub open spec fn five_replacements(s: Seq<char>) -> Seq<char> {
    replaced(
        replaced(
            replaced(
                replaced(
                    replaced(s, seq!['&'], seq!['&', 'a', 'm', 'p', ';']),
                    seq!['<'],
                    seq!['&', 'l', 't', ';'],
                ),
                seq!['>'],
                seq!['&', 'g', 't', ';'],
            ),
            seq!['"'],
            seq!['&', 'q', 'u', 'o', 't', ';'],
        ),
        seq!['\''],
        seq!['&', '#', '3', '9', ';'],
    )
}

spec fn five_char_replacements(s: Seq<char>) -> Seq<char> {
    replace_char(
        replace_char(
            replace_char(
                replace_char(
                    replace_char(s, '&', seq!['&', 'a', 'm', 'p', ';']),
                    '<',
                    seq!['&', 'l', 't', ';'],
                ),
                '>',
                seq!['&', 'g', 't', ';'],
            ),
            '"',
            seq!['&', 'q', 'u', 'o', 't', ';'],
        ),
        '\'',
        seq!['&', '#', '3', '9', ';'],
    )
}

proof fn lemma_five_char_replacements_concat(a: Seq<char>, b: Seq<char>)
    ensures
        five_char_replacements(a + b) == five_char_replacements(a) + five_char_replacements(b),
{
    let r1a = replace_char(a, '&', seq!['&', 'a', 'm', 'p', ';']);
    let r1b = replace_char(b, '&', seq!['&', 'a', 'm', 'p', ';']);
    lemma_replace_char_concat(a, b, '&', seq!['&', 'a', 'm', 'p', ';']);
    let r2a = replace_char(r1a, '<', seq!['&', 'l', 't', ';']);
    let r2b = replace_char(r1b, '<', seq!['&', 'l', 't', ';']);
    lemma_replace_char_concat(r1a, r1b, '<', seq!['&', 'l', 't', ';']);
    let r3a = replace_char(r2a, '>', seq!['&', 'g', 't', ';']);
    let r3b = replace_char(r2b, '>', seq!['&', 'g', 't', ';']);
    lemma_replace_char_concat(r2a, r2b, '>', seq!['&', 'g', 't', ';']);
    let r4a = replace_char(r3a, '"', seq!['&', 'q', 'u', 'o', 't', ';']);
    let r4b = replace_char(r3b, '"', seq!['&', 'q', 'u', 'o', 't', ';']);
    lemma_replace_char_concat(r3a, r3b, '"', seq!['&', 'q', 'u', 'o', 't', ';']);
    lemma_replace_char_concat(r4a, r4b, '\'', seq!['&', '#', '3', '9', ';']);
}

proof fn lemma_replace_char_one(x: char, c: char, rep: Seq<char>)
    ensures
        replace_char(seq![x], c, rep) == if x == c {
            rep
        } else {
            seq![x]
        },
{
    assert(seq![x].drop_first() =~= Seq::<char>::empty());
    assert(seq![x][0] == x);
    assert(replace_char(Seq::<char>::empty(), c, rep) == Seq::<char>::empty());
    let head = if x == c {
        rep
    } else {
        seq![x]
    };
    assert(head + Seq::<char>::empty() =~= head);
}

proof fn lemma_five_char_replacements_one(x: char)
    ensures
        five_char_replacements(seq![x]) == escape_char(x),
{
    let amp = seq!['&', 'a', 'm', 'p', ';'];
    let lt = seq!['&', 'l', 't', ';'];
    let gt = seq!['&', 'g', 't', ';'];
    let quot = seq!['&', 'q', 'u', 'o', 't', ';'];
    let apos = seq!['&', '#', '3', '9', ';'];
    lemma_replace_char_one(x, '&', amp);
    let r1 = replace_char(seq![x], '&', amp);
    if x == '&' {
        lemma_replace_char_absent(r1, '<', lt);
        lemma_replace_char_absent(r1, '>', gt);
        lemma_replace_char_absent(r1, '"', quot);
        lemma_replace_char_absent(r1, '\'', apos);
    } else {
        lemma_replace_char_one(x, '<', lt);
        let r2 = replace_char(r1, '<', lt);
        if x == '<' {
            lemma_replace_char_absent(r2, '>', gt);
            lemma_replace_char_absent(r2, '"', quot);
            lemma_replace_char_absent(r2, '\'', apos);
        } else {
            lemma_replace_char_one(x, '>', gt);
            let r3 = replace_char(r2, '>', gt);
            if x == '>' {
                lemma_replace_char_absent(r3, '"', quot);
                lemma_replace_char_absent(r3, '\'', apos);
            } else {
                lemma_replace_char_one(x, '"', quot);
                let r4 = replace_char(r3, '"', quot);
                if x == '"' {
                    lemma_replace_char_absent(r4, '\'', apos);
                } else {
                    lemma_replace_char_one(x, '\'', apos);
                }
            }
        }
    }
}

proof fn lemma_five_char_replacements_escape(s: Seq<char>)
    ensures
        five_char_replacements(s) == escaped(s),
    decreases s.len(),
{
    if s.len() == 0 {
        assert(replace_char(s, '&', seq!['&', 'a', 'm', 'p', ';']) == s);
    } else {
        lemma_five_char_replacements_escape(s.drop_last());
        assert(s.drop_last() + seq![s.last()] =~= s);
        lemma_five_char_replacements_concat(s.drop_last(), seq![s.last()]);
        lemma_five_char_replacements_one(s.last());
    }
}

/// Escaping in one pass gives what replacing `&`, `<`, `>`, `"` and `'` by
/// their entities one after the other gives.
pub proof fn lemma_escape_is_five_replacements(s: Seq<char>)
    ensures
        escaped(s) == five_replacements(s),
{
    let amp = seq!['&', 'a', 'm', 'p', ';'];
    let lt = seq!['&', 'l', 't', ';'];
    let gt = seq!['&', 'g', 't', ';'];
    let quot = seq!['&', 'q', 'u', 'o', 't', ';'];
    let apos = seq!['&', '#', '3', '9', ';'];
    lemma_replaced_single(s, '&', amp);
    let r1 = replace_char(s, '&', amp);
    lemma_replaced_single(r1, '<', lt);
    let r2 = replace_char(r1, '<', lt);
    lemma_replaced_single(r2, '>', gt);
    let r3 = replace_char(r2, '>', gt);
    lemma_replaced_single(r3, '"', quot);
    let r4 = replace_char(r3, '"', quot);
    lemma_replaced_single(r4, '\'', apos);
    lemma_five_char_replacements_escape(s);
}

/// `content` with `&`, `<`, `>`, `"` and `'` replaced by their HTML
/// entities.
pub fn escape_html(content: &str) -> (r: String)
    ensures
        r@ == escaped(content@),
{
    let v = to_chars(content);
    let n = v.len();
    let mut out = String::new();
    let mut i: usize = 0;
    while i < n
        invariant
            i <= n,
            n == v.len(),
            v@ == content@,
            out@ == escaped(v@.take(i as int)),
        decreases n - i,
    {
        let c = v[i];
        assert(v@.take(i + 1).drop_last() =~= v@.take(i as int));
        if c == '&' {
            push_char(&mut out, '&');
            push_char(&mut out, 'a');
            push_char(&mut out, 'm');
            push_char(&mut out, 'p');
            push_char(&mut out, ';');
        } else if c == '<' {
            push_char(&mut out, '&');
            push_char(&mut out, 'l');
            push_char(&mut out, 't');
            push_char(&mut out, ';');
        } else if c == '>' {
            push_char(&mut out, '&');
            push_char(&mut out, 'g');
            push_char(&mut out, 't');
            push_char(&mut out, ';');
        } else if c == '"' {
            push_char(&mut out, '&');
            push_char(&mut out, 'q');
            push_char(&mut out, 'u');
            push_char(&mut out, 'o');
            push_char(&mut out, 't');
            push_char(&mut out, ';');
        } else if c == '\'' {
            push_char(&mut out, '&');
            push_char(&mut out, '#');
            push_char(&mut out, '3');
            push_char(&mut out, '9');
            push_char(&mut out, ';');
        } else {
            push_char(&mut out, c);
        }
        i = i + 1;
        assert(out@ =~= escaped(v@.take(i as int)));
    }
    assert(v@.take(n as int) =~= v@);
    out
}


/// The pattern of a web address in a paste.
pub open spec fn url_pattern() -> Seq<char> {
    "(https?://[^\\s]+)"@
}

/// What a web address is turned into: a link to it that opens in a new tab.
pub open spec fn link_replacement() -> Seq<char> {
    "<a href=\"$0\" target=\"_blank\" rel=\"noopener noreferrer\">$0</a>"@
}

/// `s` begins with `prefix`.
pub open spec fn starts_with(s: Seq<char>, prefix: Seq<char>) -> bool {
    prefix.len() <= s.len() && s.take(prefix.len() as int) == prefix
}

/// The length of the scheme an address at the front of `s` would have:
/// 8 for `https://`, 7 for `http://`, 0 for neither.
pub open spec fn scheme_len(s: Seq<char>) -> nat {
    if starts_with(s, seq!['h', 't', 't', 'p', 's', ':', '/', '/']) {
        8
    } else if starts_with(s, seq!['h', 't', 't', 'p', ':', '/', '/']) {
        7
    } else {
        0
    }
}

/// How many characters at the front of `s` are not white space.
pub open spec fn non_space_run(s: Seq<char>) -> nat
    decreases s.len(),
{
    if s.len() > 0 && !is_white_space(s[0]) {
        1 + non_space_run(s.drop_first())
    } else {
        0
    }
}

/// The length of the web address that starts `s`, 0 when none does: the
/// scheme followed by at least one character that is not white space, and
/// taken on up to the first white space (`https?://[^\s]+`, greedy).
pub open spec fn address_len(s: Seq<char>) -> nat {
    let p = scheme_len(s);
    if p > 0 && s.len() > p && !is_white_space(s[p as int]) {
        non_space_run(s)
    } else {
        0
    }
}

/// `s` cut into pieces, addresses found from the front and never
/// overlapping, as a leftmost search for `https?://[^\s]+` finds them. A
/// piece is `(true, address)` for a web address and `(false, c)` for a
/// single character `c` taken as it is.
pub open spec fn link_pieces(s: Seq<char>) -> Seq<(bool, Seq<char>)>
    decreases s.len(),
{
    if s.len() == 0 {
        Seq::empty()
    } else {
        if 0 < address_len(s) && address_len(s) <= s.len() {
            seq![(true, s.take(address_len(s) as int))] + link_pieces(
                s.skip(address_len(s) as int),
            )
        } else {
            seq![(false, seq![s[0]])] + link_pieces(s.drop_first())
        }
    }
}

/// The link that replaces an address `u`.
pub open spec fn anchor(u: Seq<char>) -> Seq<char> {
    "<a href=\""@ + u + "\" target=\"_blank\" rel=\"noopener noreferrer\">"@ + u + "</a>"@
}

pub open spec fn render_piece(p: (bool, Seq<char>)) -> Seq<char> {
    if p.0 {
        anchor(p.1)
    } else {
        p.1
    }
}

/// A piece that cannot open a tag or leave an attribute: a single
/// character that is not markup, or a non-empty web address holding no
/// markup and starting with its scheme.
pub open spec fn safe_piece(p: (bool, Seq<char>)) -> bool {
    if p.0 {
        p.1.len() > 0 && no_markup(p.1) && scheme_len(p.1) > 0
    } else {
        p.1.len() == 1 && !is_markup_char(p.1[0])
    }
}

pub open spec fn render_pieces(ps: Seq<(bool, Seq<char>)>) -> Seq<char>
    decreases ps.len(),
{
    if ps.len() == 0 {
        Seq::empty()
    } else {
        render_piece(ps[0]) + render_pieces(ps.drop_first())
    }
}

/// The text with each web address replaced by a link to it.
pub open spec fn linked_urls(s: Seq<char>) -> Seq<char> {
    render_pieces(link_pieces(s))
}

/// What `regex::Regex::new(pattern)` followed by
/// `Regex::replace_all(haystack, replacement)` gives: `None` when the pattern
/// is refused, else the haystack with every match replaced by the
/// replacement, `$0` in it standing for the matched text.
pub uninterp spec fn regex_replace_all(
    pattern: Seq<char>,
    haystack: Seq<char>,
    replacement: Seq<char>,
) -> Option<Seq<char>>;

/// Compiles `pattern` with `regex::Regex::new` and, if it compiles, replaces
/// every match in `haystack` with `Regex::replace_all`. For any pattern the
/// result is the named value `regex_replace_all` of the three texts. For the
/// address pattern `(https?://[^\s]+)` with the link replacement, the result
/// is stated: the pattern compiles, matches are leftmost and do not overlap,
/// `s?` and `[^\s]+` are greedy, `\s` is Unicode `White_Space`, and `$0` is
/// the whole match. Nothing is claimed of other patterns beyond the name.
#[verifier::external_body]
fn replace_matches(pattern: &str, haystack: &str, replacement: &str) -> (r: Option<String>)
    ensures
        r.deep_view() == regex_replace_all(pattern@, haystack@, replacement@),
        pattern@ == url_pattern() && replacement@ == link_replacement() ==> r.deep_view()
            == Some(linked_urls(haystack@)),
{
    match regex::Regex::new(pattern) {
        Ok(re) => Some(re.replace_all(haystack, replacement).into_owned()),
        Err(_) => None,
    }
}

/// Turns every `http://` or `https://` address in `text` into a link.
pub fn convert_urls_to_links(text: &str) -> (r: String)
    ensures
        r@ == linked_urls(text@),
{
    match replace_matches(
        "(https?://[^\\s]+)",
        text,
        "<a href=\"$0\" target=\"_blank\" rel=\"noopener noreferrer\">$0</a>",
    ) {
        Some(linked) => linked,
        None => String::new(),
    }
}

/// `s` holds no `<`, `>`, `"` or `'`.
pub open spec fn no_markup(s: Seq<char>) -> bool {
    forall|i: int| 0 <= i < s.len() ==> !is_markup_char(#[trigger] s[i])
}

proof fn lemma_non_space_run_bound(s: Seq<char>)
    ensures
        non_space_run(s) <= s.len(),
    decreases s.len(),
{
    if s.len() > 0 && !is_white_space(s[0]) {
        lemma_non_space_run_bound(s.drop_first());
    }
}

/// In text without markup, every piece is a plain character that is not
/// markup or a non-empty address without markup that begins with its
/// scheme.
pub proof fn lemma_link_pieces_safe(s: Seq<char>)
    requires
        no_markup(s),
    ensures
        forall|i: int| 0 <= i < link_pieces(s).len() ==> safe_piece(#[trigger] link_pieces(s)[i]),
    decreases s.len(),
{
    if s.len() > 0 {
        let k = address_len(s);
        lemma_non_space_run_bound(s);
        if 0 < k <= s.len() {
            let u = s.take(k as int);
            let rest = s.skip(k as int);
            assert(no_markup(rest)) by {
                assert forall|i: int| 0 <= i < rest.len() implies !is_markup_char(
                    #[trigger] rest[i],
                ) by {
                    assert(rest[i] == s[i + k]);
                }
            }
            lemma_link_pieces_safe(rest);
            let p = scheme_len(s);
            lemma_run_covers_scheme(s, p);
            assert(u.take(p as int) =~= s.take(p as int));
            assert(scheme_len(u) == p) by {
                if p == 8 {
                    assert(u.take(8) =~= s.take(8));
                } else {
                    assert(s[4] == s.take(7)[4]);
                    assert(u[4] == s[4]);
                    if starts_with(u, seq!['h', 't', 't', 'p', 's', ':', '/', '/']) {
                        assert(u.take(8)[4] == u[4]);
                    }
                }
            }
            let ps = link_pieces(s);
            lemma_address_piece(s);
            assert forall|i: int| 0 <= i < ps.len() implies safe_piece(#[trigger] ps[i]) by {
                if i > 0 {
                    assert(ps[i] == link_pieces(rest)[i - 1]);
                } else {
                    assert(ps[0] == (true, u));
                    assert forall|j: int| 0 <= j < u.len() implies !is_markup_char(
                        #[trigger] u[j],
                    ) by {
                        assert(u[j] == s[j]);
                    }
                }
            }
        } else {
            let rest = s.drop_first();
            assert(no_markup(rest)) by {
                assert forall|i: int| 0 <= i < rest.len() implies !is_markup_char(
                    #[trigger] rest[i],
                ) by {
                    assert(rest[i] == s[i + 1]);
                }
            }
            lemma_link_pieces_safe(rest);
            let ps = link_pieces(s);
            lemma_plain_piece(s);
            assert forall|i: int| 0 <= i < ps.len() implies safe_piece(#[trigger] ps[i]) by {
                if i > 0 {
                    assert(ps[i] == link_pieces(rest)[i - 1]);
                } else {
                    assert(!is_markup_char(s[0]));
                    assert(ps[0] == (false, seq![s[0]]));
                }
            }
        }
    }
}

proof fn lemma_plain_piece(s: Seq<char>)
    requires
        s.len() > 0,
        address_len(s) == 0,
    ensures
        link_pieces(s).len() == 1 + link_pieces(s.drop_first()).len(),
        link_pieces(s)[0] == (false, seq![s[0]]),
        forall|i: int|
            1 <= i < link_pieces(s).len() ==> #[trigger] link_pieces(s)[i] == link_pieces(
                s.drop_first(),
            )[i - 1],
{
    assert(!(0 < address_len(s) && address_len(s) <= s.len()));
    let x = seq![(false, seq![s[0]])] + link_pieces(s.drop_first());
    assert(link_pieces(s) == x);
}

proof fn lemma_address_piece(s: Seq<char>)
    requires
        s.len() > 0,
        0 < address_len(s) <= s.len(),
    ensures
        link_pieces(s).len() == 1 + link_pieces(s.skip(address_len(s) as int)).len(),
        link_pieces(s)[0] == (true, s.take(address_len(s) as int)),
        forall|i: int|
            1 <= i < link_pieces(s).len() ==> #[trigger] link_pieces(s)[i] == link_pieces(
                s.skip(address_len(s) as int),
            )[i - 1],
{
    let x = seq![(true, s.take(address_len(s) as int))] + link_pieces(
        s.skip(address_len(s) as int),
    );
    assert(link_pieces(s) == x);
}

/// The scheme and the character after it are not white space, so the run
/// of non-white-space characters reaches past the scheme.
proof fn lemma_run_covers_scheme(s: Seq<char>, p: nat)
    requires
        p == scheme_len(s),
        p > 0,
        s.len() > p,
        !is_white_space(s[p as int]),
    ensures
        non_space_run(s) > p,
{
    let scheme = if p == 8 {
        seq!['h', 't', 't', 'p', 's', ':', '/', '/']
    } else {
        seq!['h', 't', 't', 'p', ':', '/', '/']
    };
    assert(s.take(p as int) == scheme);
    assert forall|j: int| 0 <= j < p implies !is_white_space(#[trigger] s[j]) by {
        assert(s[j] == s.take(p as int)[j]);
        assert(s[j] == scheme[j]);
    }
    lemma_run_at_least(s, p as int + 1);
}

proof fn lemma_run_at_least(s: Seq<char>, n: int)
    requires
        0 <= n <= s.len(),
        forall|j: int| 0 <= j < n ==> !is_white_space(#[trigger] s[j]),
    ensures
        non_space_run(s) >= n,
    decreases n,
{
    if n > 0 {
        assert forall|j: int| 0 <= j < n - 1 implies !is_white_space(
            #[trigger] s.drop_first()[j],
        ) by {
            assert(s.drop_first()[j] == s[j + 1]);
        }
        lemma_run_at_least(s.drop_first(), n - 1);
    }
}

/// A rendered paste cannot inject markup: its escaped, linked text is made
/// only of characters that are not markup and of links the library writes,
/// each around a web address that holds no markup.
pub proof fn lemma_rendered_text_is_safe(content: Seq<char>)
    ensures
        linked_urls(escaped(content)) == render_pieces(link_pieces(escaped(content))),
        forall|i: int|
            0 <= i < link_pieces(escaped(content)).len() ==> safe_piece(
                #[trigger] link_pieces(escaped(content))[i],
            ),
{
    lemma_escaped_has_no_markup(content);
    lemma_link_pieces_safe(escaped(content));
}

/// Where the paste's number goes in the page template.
pub open spec fn id_slot() -> Seq<char> {
    "<span id=\"paste-id\"></span>"@
}

/// Where the paste's text goes in the page template.
pub open spec fn content_slot() -> Seq<char> {
    "<div class=\"data\" id=\"fileContent\" aria-live=\"polite\"></div>"@
}

/// The content slot filled with `linked`.
pub open spec fn filled_content_slot(linked: Seq<char>) -> Seq<char> {
    "<div class=\"data\" id=\"fileContent\" aria-live=\"polite\">"@ + linked + "</div>"@
}

/// The page template with the paste's number and its (escaped, linked)
/// text put in their slots.
pub open spec fn filled_template(template: Seq<char>, id: int, linked: Seq<char>) -> Seq<char> {
    replaced(
        replaced(template, id_slot(), signed_decimal(id)),
        content_slot(),
        filled_content_slot(linked),
    )
}

/// The template used when `assets/paste.html` cannot be read.
pub open spec fn template_or_fallback(template: Option<Seq<char>>) -> Seq<char> {
    match template {
        Some(t) => t,
        None => "<h1>Error</h1><p>Could not load the paste template.</p>"@,
    }
}

/// Replacing skips over text that holds no character `pat` starts with.
proof fn lemma_replaced_skips(a: Seq<char>, rest: Seq<char>, pat: Seq<char>, rep: Seq<char>)
    requires
        pat.len() > 0,
        forall|i: int| 0 <= i < a.len() ==> a[i] != pat[0],
    ensures
        replaced(a + rest, pat, rep) == a + replaced(rest, pat, rep),
    decreases a.len(),
{
    if a.len() == 0 {
        assert(a + rest =~= rest);
        assert(a + replaced(rest, pat, rep) =~= replaced(rest, pat, rep));
    } else {
        let s = a + rest;
        assert(s[0] == a[0]);
        if pat.len() <= s.len() {
            assert(s.take(pat.len() as int)[0] == s[0]);
        }
        assert(s.drop_first() =~= a.drop_first() + rest);
        assert forall|i: int| 0 <= i < a.drop_first().len() implies a.drop_first()[i]
            != pat[0] by {
            assert(a.drop_first()[i] == a[i + 1]);
        }
        lemma_replaced_skips(a.drop_first(), rest, pat, rep);
        assert(seq![a[0]] + (a.drop_first() + replaced(rest, pat, rep)) =~= a + replaced(
            rest,
            pat,
            rep,
        ));
    }
}

/// Text that holds no character `pat` starts with is left as it is.
proof fn lemma_replaced_untouched(a: Seq<char>, pat: Seq<char>, rep: Seq<char>)
    requires
        pat.len() > 0,
        forall|i: int| 0 <= i < a.len() ==> a[i] != pat[0],
    ensures
        replaced(a, pat, rep) == a,
{
    lemma_replaced_skips(a, Seq::empty(), pat, rep);
    assert(a + Seq::<char>::empty() =~= a);
}

/// A text that begins with `pat` has that occurrence replaced first.
proof fn lemma_replaced_front(pat: Seq<char>, rest: Seq<char>, rep: Seq<char>)
    requires
        pat.len() > 0,
    ensures
        replaced(pat + rest, pat, rep) == rep + replaced(rest, pat, rep),
{
    let s = pat + rest;
    assert(s.take(pat.len() as int) =~= pat);
    assert(s.skip(pat.len() as int) =~= rest);
}

/// The paste's number is written into the page where the template's number
/// slot was, and reads back as the paste's id: for a template made of text
/// without `<` around the slot, the page is that text with the slot
/// replaced by digits that read as the id (after a `-` for a negative id).
pub proof fn lemma_page_shows_the_id(pre: Seq<char>, post: Seq<char>, id: int, linked: Seq<char>)
    requires
        i64::MIN <= id <= i64::MAX,
        forall|i: int| 0 <= i < pre.len() ==> pre[i] != '<',
        forall|i: int| 0 <= i < post.len() ==> post[i] != '<',
    ensures
        ({
            let page = filled_template(pre + id_slot() + post, id, linked);
            let shown = page.subrange(pre.len() as int, page.len() - post.len());
            &&& pre.len() + post.len() <= page.len()
            &&& page.take(pre.len() as int) == pre
            &&& page.skip(page.len() - post.len()) == post
            &&& id >= 0 ==> parse_u64(shown) == Some(id as nat)
            &&& id < 0 ==> shown.len() > 1 && shown[0] == '-' && parse_u64(shown.drop_first())
                == Some((-id) as nat)
        }),
{
    reveal_strlit("<span id=\"paste-id\"></span>");
    reveal_strlit("<div class=\"data\" id=\"fileContent\" aria-live=\"polite\"></div>");
    let slot = id_slot();
    let t = signed_decimal(id);
    lemma_signed_decimal_reads_back(id);
    assert(slot.len() > 0 && slot[0] == '<');
    assert(content_slot().len() > 0 && content_slot()[0] == '<');
    assert(pre + slot + post =~= pre + (slot + post));
    lemma_replaced_skips(pre, slot + post, slot, t);
    lemma_replaced_front(slot, post, t);
    lemma_replaced_untouched(post, slot, t);
    let middle = pre + t + post;
    assert(pre + (t + post) =~= middle);
    assert forall|i: int| 0 <= i < middle.len() implies middle[i] != '<' by {
        if i < pre.len() {
            assert(middle[i] == pre[i]);
        } else if i < pre.len() + t.len() {
            assert(middle[i] == t[i - pre.len()]);
            assert(is_ascii_digit(t[i - pre.len()]) || t[i - pre.len()] == '-');
        } else {
            assert(middle[i] == post[i - pre.len() - t.len()]);
        }
    }
    lemma_replaced_untouched(middle, content_slot(), filled_content_slot(linked));
    let page = filled_template(pre + slot + post, id, linked);
    assert(page == middle);
    assert(page.subrange(pre.len() as int, page.len() - post.len()) =~= t);
    assert(page.take(pre.len() as int) =~= pre);
    assert(page.skip(page.len() - post.len()) =~= post);
}

/// Puts the paste's number and its prepared text into the page template.
pub fn fill_paste_template(template: &str, id: i64, linked: &str) -> (r: String)
    ensures
        r@ == filled_template(template@, id as int, linked@),
{
    proof {
        reveal_strlit("<span id=\"paste-id\"></span>");
        reveal_strlit("<div class=\"data\" id=\"fileContent\" aria-live=\"polite\"></div>");
    }
    let id_text = i64_to_decimal(id);
    let with_id = replace_all(template, "<span id=\"paste-id\"></span>", id_text.as_str());
    let mut slot = "<div class=\"data\" id=\"fileContent\" aria-live=\"polite\">".to_owned();
    slot.append(linked);
    slot.append("</div>");
    replace_all(
        with_id.as_str(),
        "<div class=\"data\" id=\"fileContent\" aria-live=\"polite\"></div>",
        slot.as_str(),
    )
}

/// The page showing a paste: its text escaped, its web addresses made
/// links, put into `template` (or the fallback page when the template could
/// not be read).
pub fn render_paste_template(template: Option<String>, id: i64, content: &str) -> (r: String)
    ensures
        r@ == filled_template(
            template_or_fallback(template.deep_view()),
            id as int,
            linked_urls(escaped(content@)),
        ),
{
    let template_text = match template {
        Some(t) => t,
        None => "<h1>Error</h1><p>Could not load the paste template.</p>".to_owned(),
    };
    let safe = escape_html(content);
    let linked = convert_urls_to_links(safe.as_str());
    fill_paste_template(template_text.as_str(), id, linked.as_str())
}

/// The body served for `/{id}`: the paste's page, or a not-found or error
/// page. `template` is the page template as read, if it could be read.
pub fn paste_page(lookup: PasteLookup, template: Option<String>) -> (r: String)
    ensures
        match lookup {
            PasteLookup::Found(p) => r@ == filled_template(
                template_or_fallback(template.deep_view()),
                p.id as int,
                linked_urls(escaped(p.content@)),
            ),
            PasteLookup::Missing => r@
                == "<h1>404 Not Found</h1><p>The requested paste does not exist.</p>"@,
            PasteLookup::Failed => r@ == "<h1>Error</h1><p>Could not retrieve the paste.</p>"@,
        },
{
    match lookup {
        PasteLookup::Found(p) => render_paste_template(template, p.id, p.content.as_str()),
        PasteLookup::Missing => "<h1>404 Not Found</h1><p>The requested paste does not exist.</p>".to_owned(),
        PasteLookup::Failed => "<h1>Error</h1><p>Could not retrieve the paste.</p>".to_owned(),
    }
}

} // verus!

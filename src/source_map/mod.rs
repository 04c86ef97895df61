pub mod decoded_map;
pub mod mappings;

use vstd::prelude::*;

use crate::chunk::frag_views;

verus! {

/// A source map, version 3.
pub struct SourceMap {
    pub version: u8,
    pub sources: Vec<String>,
    pub sources_content: Vec<String>,
    pub mappings: String,
    pub names: Vec<String>,
}

/// The JSON string literal that serde_json writes for `s`.
pub uninterp spec fn json_quoted(s: Seq<char>) -> Seq<char>;

/// Relies on `serde_json::to_string` of a `str`: the JSON string literal for it,
/// which depends on the text alone. Writing a `str` to memory cannot fail.
#[verifier::external_body]
fn json_string(s: &str) -> (r: String)
    ensures
        r@ == json_quoted(s@),
{
    serde_json::to_string(s).unwrap_or_default()
}

/// Relies on `String::push_str`: the text is appended.
#[verifier::external_body]
fn push_text(out: &mut String, s: &str)
    ensures
        final(out)@ == old(out)@ + s@,
{
    out.push_str(s);
}

/// The decimal digits of `n`.
pub open spec fn decimal(n: nat) -> Seq<char>
    decreases n,
{
    if n < 10 {
        seq![((48 + n) as u8) as char]
    } else {
        decimal(n / 10) + seq![((48 + n % 10) as u8) as char]
    }
}

/// The items separated by commas.
pub open spec fn comma_joined(items: Seq<Seq<char>>) -> Seq<char>
    decreases items.len(),
{
    if items.len() == 0 {
        Seq::empty()
    } else if items.len() == 1 {
        items[0]
    } else {
        comma_joined(items.drop_last()) + seq![','] + items.last()
    }
}

/// A JSON array of items that are already JSON text.
pub open spec fn json_list(items: Seq<Seq<char>>) -> Seq<char> {
    seq!['['] + comma_joined(items) + seq![']']
}

/// Each string as the JSON string literal that serde_json writes for it.
pub open spec fn quoted_all(items: Seq<Seq<char>>) -> Seq<Seq<char>> {
    Seq::new(items.len(), |i: int| json_quoted(items[i]))
}

/// The JSON object of a map whose strings are already JSON string literals,
/// with its keys in the order that consumers expect.
pub open spec fn json_frame(
    version: nat,
    sources: Seq<Seq<char>>,
    contents: Seq<Seq<char>>,
    names: Seq<Seq<char>>,
    mappings: Seq<char>,
) -> Seq<char> {
    "{\"version\":"@ + decimal(version) + ",\"sources\":"@ + json_list(sources) + ",\"sourcesContent\":"@
        + json_list(contents) + ",\"names\":"@ + json_list(names) + ",\"mappings\":"@ + mappings + "}"@
}

/// The JSON object for a map.
pub open spec fn json_of(
    version: nat,
    sources: Seq<Seq<char>>,
    contents: Seq<Seq<char>>,
    names: Seq<Seq<char>>,
    mappings: Seq<char>,
) -> Seq<char> {
    json_frame(version, quoted_all(sources), quoted_all(contents), quoted_all(names), json_quoted(mappings))
}

/// Each string as a JSON string literal.
fn quote_all(items: &Vec<String>) -> (r: Vec<String>)
    ensures
        frag_views(r@) == quoted_all(frag_views(items@)),
{
    let mut r: Vec<String> = Vec::new();
    let mut i: usize = 0;
    while i < items.len()
        invariant
            i <= items@.len(),
            frag_views(r@) == quoted_all(frag_views(items@)).take(i as int),
        decreases items@.len() - i,
    {
        let q = json_string(items[i].as_str());
        let ghost old_r = r@;
        r.push(q);
        proof {
            let w = quoted_all(frag_views(items@));
            assert(frag_views(r@) =~= frag_views(old_r).push(q@));
            assert(w.take(i as int + 1) =~= w.take(i as int).push(w[i as int]));
            assert(w[i as int] == json_quoted(items@[i as int]@));
        }
        i = i + 1;
    }
    assert(quoted_all(frag_views(items@)).take(i as int) =~= quoted_all(frag_views(items@)));
    r
}

/// Appends a JSON array of `items`, which are already JSON text.
fn push_json_list(out: &mut String, items: &Vec<String>)
    ensures
        final(out)@ == old(out)@ + json_list(frag_views(items@)),
{
    let ghost v = frag_views(items@);
    crate::source_map::mappings::push_char(out, '[');
    let mut i: usize = 0;
    assert(comma_joined(v.take(0)) =~= Seq::<char>::empty());
    while i < items.len()
        invariant
            i <= items@.len(),
            v == frag_views(items@),
            out@ == old(out)@ + seq!['['] + comma_joined(v.take(i as int)),
        decreases items@.len() - i,
    {
        if i > 0 {
            crate::source_map::mappings::push_char(out, ',');
        }
        push_text(out, items[i].as_str());
        proof {
            let k = i as int + 1;
            assert(v.take(k).drop_last() =~= v.take(i as int));
            assert(v.take(k).last() == items@[i as int]@);
            if i == 0 {
                assert(v.take(k)[0] == items@[0]@);
            }
            assert(out@ =~= old(out)@ + seq!['['] + comma_joined(v.take(k)));
        }
        i = i + 1;
    }
    crate::source_map::mappings::push_char(out, ']');
    assert(v.take(i as int) =~= v);
    assert(out@ =~= old(out)@ + json_list(v));
}

/// The JSON object of a map from its parts, whose strings are already JSON
/// string literals: `version`, `sources`, `sourcesContent`, `names` and
/// `mappings`, in that order.
pub fn json_from_quoted(
    version: u8,
    sources: &Vec<String>,
    contents: &Vec<String>,
    names: &Vec<String>,
    mappings: &str,
) -> (r: String)
    ensures
        r@ == json_frame(version as nat, frag_views(sources@), frag_views(contents@), frag_views(names@), mappings@),
{
    let mut out = String::new();
    push_text(&mut out, "{\"version\":");
    let v = decimal_text(version);
    push_text(&mut out, v.as_str());
    push_text(&mut out, ",\"sources\":");
    push_json_list(&mut out, sources);
    push_text(&mut out, ",\"sourcesContent\":");
    push_json_list(&mut out, contents);
    push_text(&mut out, ",\"names\":");
    push_json_list(&mut out, names);
    push_text(&mut out, ",\"mappings\":");
    push_text(&mut out, mappings);
    push_text(&mut out, "}");
    proof {
        reveal_strlit("{\"version\":");
        reveal_strlit(",\"sources\":");
        reveal_strlit(",\"sourcesContent\":");
        reveal_strlit(",\"names\":");
        reveal_strlit(",\"mappings\":");
        reveal_strlit("}");
    }
    assert(out@ =~= json_frame(version as nat, frag_views(sources@), frag_views(contents@), frag_views(names@), mappings@));
    out
}

/// The decimal digits of `n`.
fn decimal_text(n: u8) -> (r: String)
    ensures
        r@ == decimal(n as nat),
{
    let mut out = String::new();
    if n >= 100 {
        let ghost e = out@;
        push_digit(&mut out, n / 100);
        let ghost o1 = out@;
        push_digit(&mut out, (n / 10) % 10);
        let ghost o2 = out@;
        push_digit(&mut out, n % 10);
        assert(e =~= Seq::<char>::empty());
        assert(o1 =~= seq![((48 + n / 100) as u8) as char]);
        assert(o2 =~= o1 + seq![((48 + (n / 10) % 10) as u8) as char]);
        assert(out@ =~= o2 + seq![((48 + n % 10) as u8) as char]);
        let ghost m = n as nat;
        let ghost ca = ((48 + m / 100) as u8) as char;
        let ghost cb = ((48 + (m / 10) % 10) as u8) as char;
        let ghost cc = ((48 + m % 10) as u8) as char;
        assert(out@ =~= seq![ca, cb, cc]);
        assert(m / 10 / 10 == m / 100);
        assert(m / 10 >= 10);
        assert(decimal(m / 100) == seq![((48 + m / 100) as u8) as char]);
        assert(decimal(m / 10) == decimal(m / 10 / 10) + seq![((48 + (m / 10) % 10) as u8) as char]);
        assert(decimal(m) == decimal(m / 10) + seq![((48 + m % 10) as u8) as char]);
        assert(decimal(m) =~= seq![ca, cb, cc]);
        assert(out@ == decimal(m));
    } else if n >= 10 {
        push_digit(&mut out, n / 10);
        let ghost o1 = out@;
        push_digit(&mut out, n % 10);
        let ghost m = n as nat;
        assert(o1 =~= seq![((48 + m / 10) as u8) as char]);
        assert(decimal(m / 10) == seq![((48 + m / 10) as u8) as char]);
        assert(decimal(m) == decimal(m / 10) + seq![((48 + m % 10) as u8) as char]);
        assert(out@ =~= decimal(m));
    } else {
        push_digit(&mut out, n);
        assert(out@ =~= decimal(n as nat));
    }
    out
}

/// Appends the decimal digit `d`.
fn push_digit(out: &mut String, d: u8)
    requires
        d < 10,
    ensures
        final(out)@ == old(out)@.push(((48 + d) as u8) as char),
{
    crate::source_map::mappings::push_char(out, (48 + d) as char);
}

impl SourceMap {
    /// The map as a JSON object: `version`, `sources`, `sourcesContent`, `names`
    /// and `mappings`, in that order.
    pub fn to_string(&self) -> (r: String)
        ensures
            r@ == json_of(
                self.version as nat,
                frag_views(self.sources@),
                frag_views(self.sources_content@),
                frag_views(self.names@),
                self.mappings@,
            ),
    {
        let sources = quote_all(&self.sources);
        let contents = quote_all(&self.sources_content);
        let names = quote_all(&self.names);
        let mappings = json_string(self.mappings.as_str());
        json_from_quoted(self.version, &sources, &contents, &names, mappings.as_str())
    }
}

} // verus!

//! Small building blocks: id validation, token splitting, naming.

use vstd::prelude::*;
use vstd::string::*;
use crate::error::PaperError;
use crate::text::{
    chars_of, index_of, last_start, lemma_index_of, lemma_index_of_bounds, lemma_last_start,
    lemma_split_last, lemma_split_single, lemma_split_step, lemma_texts_push, split, texts, trim,
    trim_bounds,
};

verus! {

/// Number of characters in a wallpaper id.
pub const ID_LEN: usize = 6;

/// `c` is one of `0-9`, `A-Z`, `a-z`.
pub open spec fn is_ascii_alphanumeric(c: char) -> bool {
    ('0' <= c && c <= '9') || ('A' <= c && c <= 'Z') || ('a' <= c && c <= 'z')
}

/// A wallpaper id is exactly six ASCII letters or digits.
pub open spec fn valid_wallpaper_id(id: Seq<char>) -> bool {
    &&& id.len() == ID_LEN
    &&& forall|i: int| 0 <= i < id.len() ==> is_ascii_alphanumeric(#[trigger] id[i])
}

fn byte_is_alphanumeric(b: u8) -> (r: bool)
    ensures
        r == is_ascii_alphanumeric(b as char),
{
    (0x30 <= b && b <= 0x39) || (0x41 <= b && b <= 0x5a) || (0x61 <= b && b <= 0x7a)
}

/// Validate wallpaper ID format (6 alphanumeric characters).
pub fn validate_wallpaper_id(id: &str) -> (ok: bool)
    ensures
        ok == valid_wallpaper_id(id@),
{
    if !id.is_ascii() {
        assert(!valid_wallpaper_id(id@)) by {
            if valid_wallpaper_id(id@) {
                assert forall|i: int| 0 <= i < id@.len() implies (id@[i] as nat) < 128 by {
                    assert(is_ascii_alphanumeric(id@[i]));
                }
            }
        }
        return false;
    }
    proof {
        is_ascii_spec_bytes(id);
        assert(id.spec_bytes().len() == id@.len());
    }
    if id.as_bytes().len() != ID_LEN {
        return false;
    }
    let mut i: usize = 0;
    while i < ID_LEN
        invariant
            i <= ID_LEN,
            id@.len() == ID_LEN,
            is_ascii(id),
            forall|j: int| 0 <= j < i ==> is_ascii_alphanumeric(#[trigger] id@[j]),
        decreases ID_LEN - i,
    {
        let b = id.get_ascii(i);
        if !byte_is_alphanumeric(b) {
            assert(!is_ascii_alphanumeric(id@[i as int]));
            return false;
        }
        i += 1;
    }
    true
}

/// The comma-separated tokens of `s`: each piece trimmed, empty pieces dropped.
pub open spec fn to_array_spec(s: Seq<char>) -> Seq<Seq<char>> {
    split(s, ',').map_values(|piece: Seq<char>| trim(piece)).filter(
        |token: Seq<char>| token.len() > 0,
    )
}

/// Appends the trimmed piece `chars[from..to]` of `source` to `out` unless it is empty.
fn push_token(
    out: &mut Vec<String>,
    source: &str,
    chars: &Vec<char>,
    from: usize,
    to: usize,
    Ghost(done): Ghost<Seq<Seq<char>>>,
)
    requires
        chars@ == source@,
        from <= to <= chars.len(),
        texts(old(out)@) == done.map_values(|piece: Seq<char>| trim(piece)).filter(
            |token: Seq<char>| token.len() > 0,
        ),
    ensures
        texts(final(out)@) == done.push(source@.subrange(from as int, to as int)).map_values(
            |piece: Seq<char>| trim(piece),
        ).filter(|token: Seq<char>| token.len() > 0),
{
    let ghost piece = source@.subrange(from as int, to as int);
    let ghost trimmed = |piece: Seq<char>| trim(piece);
    let ghost nonempty = |token: Seq<char>| token.len() > 0;
    let (a, b) = trim_bounds(chars, from, to);
    proof {
        done.lemma_push_map_commute(trimmed, piece);
        done.map_values(trimmed).lemma_filter_push(trim(piece), nonempty);
    }
    if a < b {
        let token = source.substring_char(a, b).to_owned();
        proof {
            lemma_texts_push(out@, token);
        }
        out.push(token);
    }
}

/// Split comma-separated values into a vector of strings.
pub fn to_array(comma_separated_values: &str) -> (out: Vec<String>)
    ensures
        texts(out@) == to_array_spec(comma_separated_values@),
{
    let source = comma_separated_values;
    let chars = chars_of(source);
    let n = chars.len();
    let mut out: Vec<String> = Vec::new();
    let ghost mut done: Seq<Seq<char>> = Seq::empty();
    let mut start: usize = 0;
    let mut i: usize = 0;
    proof {
        assert(source@.skip(0) == source@);
        assert(texts(out@) =~= Seq::<Seq<char>>::empty());
        assert(done.map_values(|piece: Seq<char>| trim(piece)) =~= Seq::<Seq<char>>::empty());
        reveal(Seq::filter);
    }
    while i < n
        invariant
            chars@ == source@,
            n == chars.len(),
            start <= i <= n,
            forall|j: int| start <= j < i ==> #[trigger] source@[j] != ',',
            split(source@, ',') == done + split(source@.skip(start as int), ','),
            texts(out@) == done.map_values(|piece: Seq<char>| trim(piece)).filter(
                |token: Seq<char>| token.len() > 0,
            ),
        decreases n - i,
    {
        if chars[i] == ',' {
            proof {
                let rest = source@.skip(start as int);
                assert forall|j: int| 0 <= j < i - start implies #[trigger] rest[j] != ',' by {
                    assert(rest[j] == source@[start + j]);
                }
                lemma_split_step(rest, ',', i - start);
                assert(rest.take(i - start) == source@.subrange(start as int, i as int));
                assert(rest.skip(i - start + 1) == source@.skip(i + 1));
                assert(done + (seq![rest.take(i - start)] + split(source@.skip(i + 1), ','))
                    == done.push(rest.take(i - start)) + split(source@.skip(i + 1), ','));
            }
            push_token(&mut out, source, &chars, start, i, Ghost(done));
            proof {
                done = done.push(source@.subrange(start as int, i as int));
            }
            start = i + 1;
        }
        i += 1;
    }
    proof {
        let rest = source@.skip(start as int);
        assert forall|j: int| 0 <= j < rest.len() implies #[trigger] rest[j] != ',' by {
            assert(rest[j] == source@[start + j]);
        }
        lemma_split_single(rest, ',');
        assert(rest == source@.subrange(start as int, n as int));
        assert(done + seq![rest] == done.push(rest));
    }
    push_token(&mut out, source, &chars, start, n, Ghost(done));
    out
}

/// Whether `input` parses as an absolute URL.
pub uninterp spec fn parses_as_url(input: Seq<char>) -> bool;

/// Check if a string is a valid URL.
///
/// Calls `url::Url::parse`; the contract says only that the answer is what
/// that parser decides for this text.
#[verifier::external_body]
pub fn is_url(input: &str) -> (ok: bool)
    ensures
        ok == parses_as_url(input@),
{
    url::Url::parse(input).is_ok()
}

/// The id that a wallpaper's page address ends in: the last segment of the
/// path, which is what stands before the query string.
pub open spec fn id_in_url(address: Seq<char>) -> Seq<char> {
    split(split(address, '?').first(), '/').last()
}

/// What a raw token stands for: the id in it where it is an address, else itself.
pub open spec fn normalized(raw: Seq<char>, looks_like_url: bool) -> Seq<char> {
    if looks_like_url {
        id_in_url(raw)
    } else {
        raw
    }
}

/// What stands before the query string: all up to the first `?`.
pub proof fn lemma_path_of(address: Seq<char>, q: int)
    requires
        0 <= q <= address.len(),
        forall|j: int| 0 <= j < q ==> #[trigger] address[j] != '?',
        q == address.len() || address[q] == '?',
    ensures
        split(address, '?').first() == address.take(q),
{
    lemma_index_of(address, '?', q);
    if q == address.len() {
        assert(address.take(q) == address);
    }
}

/// What `id_in_url` gives holds neither `/` nor `?`, and so stands for itself.
pub proof fn lemma_id_in_url_plain(address: Seq<char>)
    ensures
        forall|i: int|
            0 <= i < id_in_url(address).len() ==> (#[trigger] id_in_url(address)[i]) != '/'
                && id_in_url(address)[i] != '?',
        id_in_url(id_in_url(address)) == id_in_url(address),
{
    lemma_index_of_bounds(address, '?');
    let q = index_of(address, '?');
    lemma_path_of(address, q);
    let path = address.take(q);
    let k = last_start(path, '/');
    lemma_last_start(path, '/');
    lemma_split_last(path, '/', k);
    let id = id_in_url(address);
    assert(id == path.skip(k));
    assert forall|i: int| 0 <= i < id.len() implies (#[trigger] id[i]) != '/' && id[i] != '?' by {
        assert(id[i] == path[k + i]);
        assert(path[k + i] == address[k + i]);
    }
    lemma_split_single(id, '/');
    lemma_split_single(id, '?');
    assert(seq![id].last() == id);
    assert(seq![id].first() == id);
}

/// The id of a page address: where an address is a prefix that ends in `/`
/// and holds no `?`, then an id without `/` and `?`, then nothing more or a
/// `?` and any query, the id is what `id_in_url` gives.
pub proof fn lemma_id_in_page_address(prefix: Seq<char>, id: Seq<char>, query: Seq<char>)
    requires
        prefix.len() == 0 || prefix.last() == '/',
        forall|j: int| 0 <= j < prefix.len() ==> #[trigger] prefix[j] != '?',
        forall|j: int| 0 <= j < id.len() ==> (#[trigger] id[j]) != '/' && id[j] != '?',
    ensures
        id_in_url(prefix + id) == id,
        id_in_url(prefix + id + seq!['?'] + query) == id,
{
    let path = prefix + id;
    let k = prefix.len() as int;
    assert forall|j: int| 0 <= j < path.len() implies #[trigger] path[j] != '?' by {
        if j >= k {
            assert(path[j] == id[j - k]);
        } else {
            assert(path[j] == prefix[j]);
        }
    }
    assert forall|j: int| k <= j < path.len() implies #[trigger] path[j] != '/' by {
        assert(path[j] == id[j - k]);
    }
    if k > 0 {
        assert(path[k - 1] == prefix.last());
    }
    lemma_split_last(path, '/', k);
    assert(path.skip(k) == id);
    lemma_path_of(path, path.len() as int);
    assert(path.take(path.len() as int) == path);
    let full = prefix + id + seq!['?'] + query;
    let q = path.len() as int;
    assert forall|j: int| 0 <= j < q implies #[trigger] full[j] != '?' by {
        assert(full[j] == path[j]);
    }
    assert(full[q] == '?');
    lemma_path_of(full, q);
    assert(full.take(q) == path);
}

/// An input that normalises to a wallpaper id gives that id and nothing else.
pub proof fn lemma_input_gives_id(input: Seq<char>, id: Seq<char>)
    requires
        normalized(input, parses_as_url(input)) == id,
        valid_wallpaper_id(id),
    ensures
        normalized_inputs(seq![input]) == seq![id],
        valid_tokens(normalized_inputs(seq![input])) == seq![id],
        invalid_tokens(normalized_inputs(seq![input])) == Seq::<Seq<char>>::empty(),
{
    assert(normalized_inputs(seq![input]) =~= seq![id]);
    lemma_valid_id_is_its_own_token(id);
}

/// A page address that the parser takes for a URL stands for the wallpaper
/// id it ends in, with or without a query string; nothing of it is rejected.
pub proof fn lemma_page_address_gives_id(prefix: Seq<char>, id: Seq<char>, query: Seq<char>)
    requires
        prefix.len() == 0 || prefix.last() == '/',
        forall|j: int| 0 <= j < prefix.len() ==> #[trigger] prefix[j] != '?',
        valid_wallpaper_id(id),
    ensures
        parses_as_url(prefix + id) ==> {
            &&& normalized_inputs(seq![prefix + id]) == seq![id]
            &&& valid_tokens(normalized_inputs(seq![prefix + id])) == seq![id]
            &&& invalid_tokens(normalized_inputs(seq![prefix + id])) == Seq::<Seq<char>>::empty()
        },
        parses_as_url(prefix + id + seq!['?'] + query) ==> {
            let address = prefix + id + seq!['?'] + query;
            &&& normalized_inputs(seq![address]) == seq![id]
            &&& valid_tokens(normalized_inputs(seq![address])) == seq![id]
            &&& invalid_tokens(normalized_inputs(seq![address])) == Seq::<Seq<char>>::empty()
        },
{
    assert forall|j: int| 0 <= j < id.len() implies (#[trigger] id[j]) != '/' && id[j] != '?' by {
        assert(is_ascii_alphanumeric(id[j]));
    }
    lemma_id_in_page_address(prefix, id, query);
    let plain = prefix + id;
    let address = prefix + id + seq!['?'] + query;
    if parses_as_url(plain) {
        lemma_input_gives_id(plain, id);
    }
    if parses_as_url(address) {
        lemma_input_gives_id(address, id);
    }
}

/// Normalising twice is normalising once: the id taken from an address
/// stands for itself, whether or not it is taken for an address again.
pub proof fn lemma_normalized_idempotent(raw: Seq<char>, again: bool)
    ensures
        normalized(normalized(raw, true), again) == normalized(raw, true),
{
    lemma_id_in_url_plain(raw);
}

/// Extracts the id from a wallpaper's page address: the query string is
/// cut off at the first `?`, and what follows the last `/` before it is the id.
pub fn id_from_url(address: &str) -> (id: String)
    ensures
        id@ == id_in_url(address@),
{
    let chars = chars_of(address);
    let n = chars.len();
    let mut q: usize = 0;
    while q < n && chars[q] != '?'
        invariant
            q <= n,
            n == chars.len(),
            forall|j: int| 0 <= j < q ==> #[trigger] chars@[j] != '?',
        decreases n - q,
    {
        q += 1;
    }
    let mut k: usize = q;
    while k > 0 && chars[k - 1] != '/'
        invariant
            k <= q <= n,
            n == chars.len(),
            forall|j: int| k <= j < q ==> #[trigger] chars@[j] != '/',
        decreases k,
    {
        k -= 1;
    }
    proof {
        lemma_path_of(address@, q as int);
        let path = address@.take(q as int);
        assert forall|j: int| k <= j < path.len() implies #[trigger] path[j] != '/' by {
            assert(path[j] == chars@[j]);
        }
        if k > 0 {
            assert(path[k - 1] == chars@[k - 1]);
        }
        lemma_split_last(path, '/', k as int);
        assert(path.skip(k as int) == address@.subrange(k as int, q as int));
    }
    address.substring_char(k, q).to_owned()
}

/// Normalises one raw token, given whether it parses as an address.
pub fn normalize_id(raw: &str, looks_like_url: bool) -> (id: String)
    ensures
        id@ == normalized(raw@, looks_like_url),
{
    if looks_like_url {
        id_from_url(raw)
    } else {
        raw.to_owned()
    }
}

/// Normalises one raw token: an address gives the id it ends in, anything
/// else stands for itself.
pub fn extract_id(raw: &str) -> (id: String)
    ensures
        id@ == normalized(raw@, parses_as_url(raw@)),
{
    normalize_id(raw, is_url(raw))
}

/// All tokens of all inputs, in order.
pub open spec fn all_tokens(inputs: Seq<Seq<char>>) -> Seq<Seq<char>> {
    inputs.map_values(|input: Seq<char>| to_array_spec(input)).flatten()
}

/// The tokens of `inputs` that are wallpaper ids, in order.
pub open spec fn valid_tokens(inputs: Seq<Seq<char>>) -> Seq<Seq<char>> {
    all_tokens(inputs).filter(|token: Seq<char>| valid_wallpaper_id(token))
}

/// The tokens of `inputs` that are no wallpaper ids, in order.
pub open spec fn invalid_tokens(inputs: Seq<Seq<char>>) -> Seq<Seq<char>> {
    all_tokens(inputs).filter(|token: Seq<char>| !valid_wallpaper_id(token))
}

/// A wallpaper id is the one token of itself, and a valid one.
pub proof fn lemma_valid_id_is_its_own_token(id: Seq<char>)
    requires
        valid_wallpaper_id(id),
    ensures
        to_array_spec(id) == seq![id],
        valid_tokens(seq![id]) == seq![id],
        invalid_tokens(seq![id]) == Seq::<Seq<char>>::empty(),
{
    reveal(Seq::filter);
    assert forall|j: int| 0 <= j < id.len() implies #[trigger] id[j] != ',' by {
        assert(is_ascii_alphanumeric(id[j]));
    }
    lemma_split_single(id, ',');
    assert(is_ascii_alphanumeric(id[0]) && is_ascii_alphanumeric(id.last()));
    assert(trim(id) == id);
    let pieces = seq![id].map_values(|piece: Seq<char>| trim(piece));
    assert(pieces =~= seq![id]);
    assert(pieces.drop_last() =~= Seq::<Seq<char>>::empty());
    assert(to_array_spec(id) =~= seq![id]);
    let tokens = seq![id].map_values(|input: Seq<char>| to_array_spec(input));
    assert(tokens =~= seq![seq![id]]);
    tokens.lemma_flatten_one_element();
    assert(all_tokens(seq![id]) == seq![id]);
    let none = Seq::<Seq<char>>::empty();
    assert(seq![id] =~= none.push(id));
    none.lemma_filter_push(id, |token: Seq<char>| valid_wallpaper_id(token));
    none.lemma_filter_push(id, |token: Seq<char>| !valid_wallpaper_id(token));
}

/// The outcome of validating raw input.
#[derive(Debug)]
pub struct Validated {
    /// The wallpaper ids found, in input order.
    pub ids: Vec<String>,
    /// The tokens that are no wallpaper ids, in input order.
    pub rejected: Vec<String>,
}

/// Splits each input at commas and sorts the tokens into wallpaper ids and
/// the rest.
pub fn validate_tokens(inputs: &[String]) -> (out: Validated)
    ensures
        texts(out.ids@) == valid_tokens(texts(inputs@)),
        texts(out.rejected@) == invalid_tokens(texts(inputs@)),
{
    let ghost pieces = |input: Seq<char>| to_array_spec(input);
    let ghost good = |token: Seq<char>| valid_wallpaper_id(token);
    let ghost bad = |token: Seq<char>| !valid_wallpaper_id(token);
    let ghost all = texts(inputs@);
    let mut ids: Vec<String> = Vec::new();
    let mut rejected: Vec<String> = Vec::new();
    let mut i: usize = 0;
    proof {
        reveal(Seq::filter);
        assert(all.take(0).map_values(pieces) =~= Seq::<Seq<Seq<char>>>::empty());
        assert(texts(ids@) =~= all_tokens(all.take(0)).filter(good));
        assert(texts(rejected@) =~= all_tokens(all.take(0)).filter(bad));
    }
    while i < inputs.len()
        invariant
            i <= inputs.len(),
            all == texts(inputs@),
            good == |token: Seq<char>| valid_wallpaper_id(token),
            bad == |token: Seq<char>| !valid_wallpaper_id(token),
            texts(ids@) == all_tokens(all.take(i as int)).filter(good),
            texts(rejected@) == all_tokens(all.take(i as int)).filter(bad),
        decreases inputs.len() - i,
    {
        let tokens = to_array(inputs[i].as_str());
        let ghost before = all_tokens(all.take(i as int));
        let ghost fresh = texts(tokens@);
        proof {
            let pieces = |input: Seq<char>| to_array_spec(input);
            assert(all.take(i + 1) == all.take(i as int).push(all[i as int]));
            all.take(i as int).lemma_push_map_commute(pieces, all[i as int]);
            all.take(i as int).map_values(pieces).lemma_flatten_push(fresh);
            assert(all_tokens(all.take(i + 1)) == before + fresh);
            assert(fresh.take(0) =~= Seq::<Seq<char>>::empty());
            assert(before + fresh.take(0) =~= before);
        }
        let mut j: usize = 0;
        while j < tokens.len()
            invariant
                j <= tokens.len(),
                fresh == texts(tokens@),
                good == |token: Seq<char>| valid_wallpaper_id(token),
                bad == |token: Seq<char>| !valid_wallpaper_id(token),
                texts(ids@) == (before + fresh.take(j as int)).filter(good),
                texts(rejected@) == (before + fresh.take(j as int)).filter(bad),
            decreases tokens.len() - j,
        {
            let token = tokens[j].clone();
            proof {
                let sofar = before + fresh.take(j as int);
                assert(before + fresh.take(j + 1) =~= sofar.push(token@));
                sofar.lemma_filter_push(token@, good);
                sofar.lemma_filter_push(token@, bad);
            }
            if validate_wallpaper_id(token.as_str()) {
                proof {
                    lemma_texts_push(ids@, token);
                }
                ids.push(token);
            } else {
                proof {
                    lemma_texts_push(rejected@, token);
                }
                rejected.push(token);
            }
            j += 1;
        }
        proof {
            assert(fresh.take(fresh.len() as int) == fresh);
        }
        i += 1;
    }
    proof {
        assert(all.take(all.len() as int) == all);
    }
    Validated { ids, rejected }
}

/// The inputs with each one normalised.
pub open spec fn normalized_inputs(raw: Seq<Seq<char>>) -> Seq<Seq<char>> {
    raw.map_values(|input: Seq<char>| normalized(input, parses_as_url(input)))
}

/// Replaces each input by what `extract_id` makes of it.
pub fn normalize_all(raw: &[String]) -> (out: Vec<String>)
    ensures
        texts(out@) == normalized_inputs(texts(raw@)),
{
    let mut out: Vec<String> = Vec::new();
    let mut i: usize = 0;
    while i < raw.len()
        invariant
            i <= raw.len(),
            out.len() == i,
            forall|j: int|
                0 <= j < i ==> (#[trigger] out@[j])@ == normalized(raw@[j]@, parses_as_url(raw@[j]@)),
        decreases raw.len() - i,
    {
        out.push(extract_id(raw[i].as_str()));
        i += 1;
    }
    assert(texts(out@) =~= normalized_inputs(texts(raw@)));
    out
}

/// Accepts bare ids, page addresses and comma-separated batches of either;
/// tokens that are no wallpaper ids are set aside, never fatal.
pub fn normalize_and_validate(raw: &[String]) -> (out: Validated)
    ensures
        texts(out.ids@) == valid_tokens(normalized_inputs(texts(raw@))),
        texts(out.rejected@) == invalid_tokens(normalized_inputs(texts(raw@))),
{
    let inputs = normalize_all(raw);
    validate_tokens(inputs.as_slice())
}

/// The image formats that have a file extension of their own here.
#[derive(Clone, Copy, Debug, PartialEq, Eq, Structural)]
pub enum ImageFormat {
    Png,
    Jpeg,
    Gif,
    WebP,
    Pnm,
    Tiff,
    Tga,
    Dds,
    Bmp,
    Ico,
    Hdr,
    /// Any other format.
    Other,
}

/// The file extension that goes with an image format.
pub open spec fn extension_of(format: ImageFormat) -> Seq<char> {
    match format {
        ImageFormat::Png => "png"@,
        ImageFormat::Jpeg => "jpeg"@,
        ImageFormat::Gif => "gif"@,
        ImageFormat::WebP => "webp"@,
        ImageFormat::Pnm => "pnm"@,
        ImageFormat::Tiff => "tiff"@,
        ImageFormat::Tga => "tga"@,
        ImageFormat::Dds => "dds"@,
        ImageFormat::Bmp => "bmp"@,
        ImageFormat::Ico => "ico"@,
        ImageFormat::Hdr => "hdr"@,
        ImageFormat::Other => "jpg"@,
    }
}

/// Get the file extension for an image format.
pub fn get_img_extension(format: &ImageFormat) -> (extension: &'static str)
    ensures
        extension@ == extension_of(*format),
{
    match format {
        ImageFormat::Png => "png",
        ImageFormat::Jpeg => "jpeg",
        ImageFormat::Gif => "gif",
        ImageFormat::WebP => "webp",
        ImageFormat::Pnm => "pnm",
        ImageFormat::Tiff => "tiff",
        ImageFormat::Tga => "tga",
        ImageFormat::Dds => "dds",
        ImageFormat::Bmp => "bmp",
        ImageFormat::Ico => "ico",
        ImageFormat::Hdr => "hdr",
        ImageFormat::Other => "jpg",
    }
}

/// The error type of the `image` crate.
#[verifier::external_type_specification]
#[verifier::external_body]
pub struct ExImageError(image::ImageError);

/// The format that the first bytes of `bytes` announce, if any.
pub uninterp spec fn guessed_format(bytes: Seq<u8>) -> Option<ImageFormat>;

/// Calls `image::guess_format`, which looks at the magic bytes only, and
/// names its variant here. The contract says that the answer depends on the
/// bytes alone.
#[verifier::external_body]
fn guess_format(bytes: &[u8]) -> (format: Result<ImageFormat, image::ImageError>)
    ensures
        guessed_format(bytes@) == match format {
            Ok(f) => Some(f),
            Err(_) => None,
        },
{
    Ok(match image::guess_format(bytes)? {
        image::ImageFormat::Png => ImageFormat::Png,
        image::ImageFormat::Jpeg => ImageFormat::Jpeg,
        image::ImageFormat::Gif => ImageFormat::Gif,
        image::ImageFormat::WebP => ImageFormat::WebP,
        image::ImageFormat::Pnm => ImageFormat::Pnm,
        image::ImageFormat::Tiff => ImageFormat::Tiff,
        image::ImageFormat::Tga => ImageFormat::Tga,
        image::ImageFormat::Dds => ImageFormat::Dds,
        image::ImageFormat::Bmp => ImageFormat::Bmp,
        image::ImageFormat::Ico => ImageFormat::Ico,
        image::ImageFormat::Hdr => ImageFormat::Hdr,
        _ => ImageFormat::Other,
    })
}

/// The path of the file that holds wallpaper `id` in `save_location`.
pub open spec fn image_name(save_location: Seq<char>, id: Seq<char>, format: ImageFormat) -> Seq<
    char,
> {
    save_location + "/"@ + id + "."@ + extension_of(format)
}

/// The path under which an image of the given format is saved.
pub fn image_file_name(save_location: &str, id: &str, format: ImageFormat) -> (name: String)
    ensures
        name@ == image_name(save_location@, id@, format),
{
    let mut name = String::from_str(save_location);
    name.append("/");
    name.append(id);
    name.append(".");
    name.append(get_img_extension(&format));
    name
}

/// The format that decides the file's extension: the one detected, or
/// `Other`, whose extension is `jpg`, where none is.
pub open spec fn format_or_default(detected: Option<ImageFormat>) -> ImageFormat {
    match detected {
        Some(format) => format,
        None => ImageFormat::Other,
    }
}

/// Chooses, from the bytes of a downloaded image, the path to save it under:
/// `<save_location>/<id>.<extension>`, with the extension of the format that
/// the bytes announce, and `jpg` where they announce none. Bytes of an
/// unknown format are no failure.
pub fn download_image(bytes: &[u8], id: &str, save_location: &str) -> (target: Result<
    String,
    PaperError,
>)
    ensures
        target matches Ok(name) && name@ == image_name(
            save_location@,
            id@,
            format_or_default(guessed_format(bytes@)),
        ),
{
    let format = match guess_format(bytes) {
        Ok(format) => format,
        Err(_) => ImageFormat::Other,
    };
    Ok(image_file_name(save_location, id, format))
}

/// The lower-case hexadecimal digit for `n`, which is below 16.
pub open spec fn hex_digit(n: int) -> char {
    if n < 10 {
        ('0' as int + n) as char
    } else {
        ('a' as int + n - 10) as char
    }
}

/// Two lower-case hexadecimal digits for each byte.
pub open spec fn hex_lower(bytes: Seq<u8>) -> Seq<char> {
    Seq::new(
        2 * bytes.len(),
        |i: int|
            if i % 2 == 0 {
                hex_digit(bytes[i / 2] as int / 16)
            } else {
                hex_digit(bytes[i / 2] as int % 16)
            },
    )
}

fn hex_digit_text(n: u8) -> (text: &'static str)
    requires
        n < 16,
    ensures
        text@ == seq![hex_digit(n as int)],
{
    proof {
        reveal_strlit("0");
        reveal_strlit("1");
        reveal_strlit("2");
        reveal_strlit("3");
        reveal_strlit("4");
        reveal_strlit("5");
        reveal_strlit("6");
        reveal_strlit("7");
        reveal_strlit("8");
        reveal_strlit("9");
        reveal_strlit("a");
        reveal_strlit("b");
        reveal_strlit("c");
        reveal_strlit("d");
        reveal_strlit("e");
        reveal_strlit("f");
    }
    let text = match n {
        0 => "0",
        1 => "1",
        2 => "2",
        3 => "3",
        4 => "4",
        5 => "5",
        6 => "6",
        7 => "7",
        8 => "8",
        9 => "9",
        10 => "a",
        11 => "b",
        12 => "c",
        13 => "d",
        14 => "e",
        _ => "f",
    };
    assert(text@ =~= seq![hex_digit(n as int)]);
    text
}

/// The bytes in lower-case hexadecimal notation.
pub fn to_hex(bytes: &[u8]) -> (text: String)
    ensures
        text@ == hex_lower(bytes@),
{
    let mut text = String::new();
    let mut i: usize = 0;
    while i < bytes.len()
        invariant
            i <= bytes.len(),
            text@ == hex_lower(bytes@.take(i as int)),
        decreases bytes.len() - i,
    {
        let b = bytes[i];
        let ghost before = text@;
        text.append(hex_digit_text(b / 16));
        text.append(hex_digit_text(b % 16));
        proof {
            let grown = bytes@.take(i + 1);
            assert(grown.len() == i + 1);
            assert forall|k: int| 0 <= k < 2 * (i + 1) implies #[trigger] text@[k] == hex_lower(
                grown,
            )[k] by {
                if k < 2 * i {
                    assert(text@[k] == before[k]);
                    assert(bytes@.take(i as int)[k / 2] == grown[k / 2]);
                } else {
                    assert(grown[k / 2] == b);
                }
            }
            assert(text@ =~= hex_lower(grown));
        }
        i += 1;
    }
    assert(bytes@.take(bytes@.len() as int) == bytes@);
    text
}

/// The SHA-256 digest of `data`.
pub uninterp spec fn sha256(data: Seq<u8>) -> Seq<u8>;

/// Calls `sha2::Sha256::digest`. The contract says that the digest depends
/// on the data alone and has 32 bytes.
#[verifier::external_body]
fn sha256_digest(data: &[u8]) -> (digest: Vec<u8>)
    ensures
        digest@ == sha256(data@),
        digest@.len() == 32,
{
    <sha2::Sha256 as sha2::Digest>::digest(data).to_vec()
}

/// Calculate the SHA256 hash of a file's contents, in lower-case hexadecimal.
pub fn calculate_sha256(contents: &[u8]) -> (hash: String)
    ensures
        hash@ == hex_lower(sha256(contents@)),
        hash@.len() == 64,
{
    let digest = sha256_digest(contents);
    to_hex(digest.as_slice())
}

} // verus!

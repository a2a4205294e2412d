//! The shape of every request made to the RomM API: URLs, headers, query
//! parameters, paging, and how a reply's status is read. Sending the requests
//! is left to the caller.
use vstd::prelude::*;

use crate::text::{chars_of, decimal, push_char, push_decimal, push_str};

verus! {

/// Whether byte `b` is left as it is by percent-encoding: an ASCII letter or
/// digit, or one of `-`, `.`, `_`, `~`.
pub open spec fn is_unreserved(b: u8) -> bool {
    (48 <= b <= 57) || (65 <= b <= 90) || (97 <= b <= 122) || b == 45 || b == 46 || b == 95
        || b == 126
}

/// The upper-case hexadecimal digit for `d < 16`.
pub open spec fn upper_hex(d: u8) -> char {
    if d < 10 {
        ((d + 48) as u8) as char
    } else {
        ((d + 55) as u8) as char
    }
}

/// `bytes` percent-encoded: each byte that is not unreserved becomes `%`
/// and its two upper-case hexadecimal digits.
pub open spec fn percent_encoded(bytes: Seq<u8>) -> Seq<char>
    decreases bytes.len(),
{
    if bytes.len() == 0 {
        Seq::empty()
    } else {
        let b = bytes.last();
        percent_encoded(bytes.drop_last()) + if is_unreserved(b) {
            seq![b as char]
        } else {
            seq!['%', upper_hex(b / 16), upper_hex(b % 16)]
        }
    }
}

/// Percent-encodes the UTF-8 bytes of `s` (`urlencoding::encode`).
#[verifier::external_body]
fn url_encode(s: &str) -> (r: String)
    ensures
        r@ == percent_encoded(vstd::utf8::encode_utf8(s@)),
{
    urlencoding::encode(s).into_owned()
}

/// `s` with every trailing `/` removed.
pub open spec fn trim_trailing_slashes(s: Seq<char>) -> Seq<char>
    decreases s.len(),
{
    if s.len() > 0 && s.last() == '/' {
        trim_trailing_slashes(s.drop_last())
    } else {
        s
    }
}

/// The RomM instance a mount talks to: its base URL (without trailing
/// slashes) and the bearer token.
pub struct RommClient {
    base_url: String,
    token: String,
}

/// What a client holds.
pub struct ClientView {
    pub base_url: Seq<char>,
    pub token: Seq<char>,
}

/// How a reply to a range request is taken.
pub enum RangeReply {
    /// 206: the requested bytes.
    Partial,
    /// Another 2xx: the whole file, taken as it is.
    Whole,
    /// Anything else: the request failed.
    Failed,
}

/// Where paging stands after one page: the offset of the next page and
/// whether to stop.
pub struct PageStep {
    pub offset: u64,
    pub done: bool,
}

/// Whether an HTTP status is a success (2xx).
pub open spec fn is_success(status: u16) -> bool {
    200 <= status <= 299
}

impl View for RommClient {
    type V = ClientView;

    closed spec fn view(&self) -> ClientView {
        ClientView { base_url: self.base_url@, token: self.token@ }
    }
}

impl RommClient {
    /// A client for the instance at `base_url` (trailing slashes dropped)
    /// that authenticates with `token`.
    pub fn new(base_url: &str, token: &str) -> (c: Self)
        ensures
            c@.base_url == trim_trailing_slashes(base_url@),
            c@.token == token@,
    {
        let cs = chars_of(base_url);
        let mut n: usize = cs.len();
        proof {
            assert(cs@.take(n as int) =~= cs@);
        }
        while n > 0 && cs[n - 1] == '/'
            invariant
                n <= cs@.len(),
                cs@ == base_url@,
                trim_trailing_slashes(cs@.take(n as int)) == trim_trailing_slashes(base_url@),
            decreases n,
        {
            proof {
                assert(cs@.take(n as int).drop_last() =~= cs@.take(n - 1));
            }
            n = n - 1;
        }
        let mut base = String::new();
        let mut i: usize = 0;
        while i < n
            invariant
                n <= cs@.len(),
                i <= n,
                base@ == cs@.take(i as int),
            decreases n - i,
        {
            push_char(&mut base, cs[i]);
            proof {
                assert(cs@.take(i + 1) =~= cs@.take(i as int).push(cs@[i as int]));
            }
            i = i + 1;
        }
        proof {
            assert(trim_trailing_slashes(cs@.take(n as int)) == cs@.take(n as int));
        }
        RommClient { base_url: base, token: token.to_owned() }
    }

    /// The URL of API path `path`.
    pub fn url(&self, path: &str) -> (u: String)
        ensures
            u@ == self@.base_url + path@,
    {
        let mut u = self.base_url.clone();
        push_str(&mut u, path);
        u
    }

    /// The value of the `Authorization` header.
    pub fn auth_header(&self) -> (h: String)
        ensures
            h@ == "Bearer "@ + self@.token,
    {
        let mut h = "Bearer ".to_owned();
        push_str(&mut h, self.token.as_str());
        h
    }

    /// The URL that lists the platforms.
    pub fn platforms_url(&self) -> (u: String)
        ensures
            u@ == self@.base_url + "/api/platforms"@,
    {
        self.url("/api/platforms")
    }

    /// The URL that lists ROMs.
    pub fn roms_url(&self) -> (u: String)
        ensures
            u@ == self@.base_url + "/api/roms"@,
    {
        self.url("/api/roms")
    }

    /// The query of one page of a platform's ROMs, files included.
    pub fn roms_query(platform_id: u64, offset: u64, limit: u64) -> (q: Vec<(String, String)>)
        ensures
            q@.map_values(|p: (String, String)| (p.0@, p.1@)) == seq![
                ("platform_ids"@, decimal(platform_id as nat)),
                ("with_files"@, "true"@),
                ("limit"@, decimal(limit as nat)),
                ("offset"@, decimal(offset as nat)),
            ],
    {
        let mut q: Vec<(String, String)> = Vec::new();
        q.push(("platform_ids".to_owned(), crate::text::decimal_string(platform_id)));
        q.push(("with_files".to_owned(), "true".to_owned()));
        q.push(("limit".to_owned(), crate::text::decimal_string(limit)));
        q.push(("offset".to_owned(), crate::text::decimal_string(offset)));
        proof {
            assert(q@.map_values(|p: (String, String)| (p.0@, p.1@)) =~= seq![
                ("platform_ids"@, decimal(platform_id as nat)),
                ("with_files"@, "true"@),
                ("limit"@, decimal(limit as nat)),
                ("offset"@, decimal(offset as nat)),
            ]);
        }
        q
    }

    /// The URL of the content of file `file_name` of ROM `rom_id`, the file
    /// name percent-encoded.
    pub fn content_url(&self, rom_id: u64, file_name: &str) -> (u: String)
        ensures
            u@ == self@.base_url + "/api/roms/"@ + decimal(rom_id as nat) + "/content/"@
                + percent_encoded(vstd::utf8::encode_utf8(file_name@)),
    {
        let mut path = "/api/roms/".to_owned();
        push_decimal(&mut path, rom_id);
        push_str(&mut path, "/content/");
        let enc = url_encode(file_name);
        push_str(&mut path, enc.as_str());
        let u = self.url(path.as_str());
        proof {
            assert(u@ =~= self@.base_url + "/api/roms/"@ + decimal(rom_id as nat) + "/content/"@
                + percent_encoded(vstd::utf8::encode_utf8(file_name@)));
        }
        u
    }

    /// The value of the `Range` header for bytes `start` to `end` inclusive.
    pub fn range_header(start: u64, end: u64) -> (h: String)
        ensures
            h@ == "bytes="@ + decimal(start as nat) + "-"@ + decimal(end as nat),
    {
        let mut h = "bytes=".to_owned();
        push_decimal(&mut h, start);
        push_char(&mut h, '-');
        push_decimal(&mut h, end);
        proof {
            reveal_strlit("-");
            assert(h@ =~= "bytes="@ + decimal(start as nat) + "-"@ + decimal(end as nat));
        }
        h
    }

    /// Whether a reply with this status carries what was asked for.
    pub fn status_ok(status: u16) -> (r: bool)
        ensures
            r == is_success(status),
    {
        200 <= status && status <= 299
    }

    /// How a reply to a range request with this status is taken.
    pub fn range_reply(status: u16) -> (r: RangeReply)
        ensures
            r == (if status == 206 {
                RangeReply::Partial
            } else if is_success(status) {
                RangeReply::Whole
            } else {
                RangeReply::Failed
            }),
    {
        if status == 206 {
            RangeReply::Partial
        } else if 200 <= status && status <= 299 {
            RangeReply::Whole
        } else {
            RangeReply::Failed
        }
    }

    /// After a page of `count` ROMs out of `total` fetched at `offset`: the
    /// next offset, and whether that was the last page (the offset reached
    /// the total, or the page was empty).
    pub fn page_step(offset: u64, count: u64, total: u64) -> (s: PageStep)
        requires
            offset + count <= u64::MAX,
        ensures
            s.offset == offset + count,
            s.done == (offset + count >= total || count == 0),
    {
        let next = offset + count;
        PageStep { offset: next, done: next >= total || count == 0 }
    }
}

/// How many items the pages hold together: where the page after them is
/// asked for, starting at offset 0 and moving on by each page's count as
/// `page_step` does.
pub open spec fn pages_len<A>(pages: Seq<Seq<A>>) -> nat
    decreases pages.len(),
{
    if pages.len() == 0 {
        0
    } else {
        pages_len(pages.drop_last()) + pages.last().len()
    }
}

/// The pages' items, in order.
pub open spec fn concat_pages<A>(pages: Seq<Seq<A>>) -> Seq<A>
    decreases pages.len(),
{
    if pages.len() == 0 {
        Seq::empty()
    } else {
        concat_pages(pages.drop_last()) + pages.last()
    }
}

/// When each page holds the listing's items from the offset it was asked
/// for, the pages together hold every item of the listing up to the final
/// offset exactly once, in order; once that offset reaches the listing's
/// length they hold the whole listing.
pub proof fn law_pages_cover_listing<A>(listing: Seq<A>, pages: Seq<Seq<A>>)
    requires
        forall|j: int|
            0 <= j < pages.len() ==> #[trigger] pages[j] == listing.subrange(
                pages_len(pages.take(j)) as int,
                (pages_len(pages.take(j)) + pages[j].len()) as int,
            ),
        pages_len(pages) <= listing.len(),
    ensures
        concat_pages(pages) == listing.subrange(0, pages_len(pages) as int),
        pages_len(pages) == listing.len() ==> concat_pages(pages) == listing,
    decreases pages.len(),
{
    if pages.len() > 0 {
        let p = pages.drop_last();
        assert forall|j: int| 0 <= j < p.len() implies #[trigger] p[j] == listing.subrange(
            pages_len(p.take(j)) as int,
            (pages_len(p.take(j)) + p[j].len()) as int,
        ) by {
            assert(p.take(j) =~= pages.take(j));
        }
        assert(pages.take(pages.len() - 1) =~= p);
        law_pages_cover_listing(listing, p);
        assert(concat_pages(pages) =~= listing.subrange(0, pages_len(pages) as int));
    }
    if pages_len(pages) == listing.len() {
        assert(listing.subrange(0, listing.len() as int) =~= listing);
    }
}

/// Paging moves on by exactly each page's count from 0: the offset after
/// the pages is how many items they hold.
pub proof fn law_page_offsets_sum<A>(pages: Seq<Seq<A>>, offsets: Seq<int>)
    requires
        offsets.len() == pages.len() + 1,
        offsets[0] == 0,
        forall|j: int| 0 <= j < pages.len() ==> #[trigger] offsets[j + 1] == offsets[j] + pages[j].len(),
    ensures
        forall|j: int| 0 <= j <= pages.len() ==> #[trigger] offsets[j] == pages_len(pages.take(j)),
    decreases pages.len(),
{
    if pages.len() > 0 {
        let p = pages.drop_last();
        law_page_offsets_sum(p, offsets.drop_last());
        assert forall|j: int| 0 <= j <= pages.len() implies #[trigger] offsets[j] == pages_len(pages.take(j)) by {
            if j < pages.len() {
                assert(pages.take(j) =~= p.take(j));
                assert(offsets.drop_last()[j] == offsets[j]);
            } else {
                assert(pages.take(j).drop_last() =~= p.take(j - 1));
                assert(offsets.drop_last()[j - 1] == offsets[j - 1]);
                assert(pages.take(j - 1) =~= p.take(j - 1));
            }
        }
    } else {
        assert(pages.take(0) =~= Seq::<Seq<A>>::empty());
    }
}

/// A base URL keeps everything up to its trailing slashes: what is left is
/// a prefix of the URL, everything after it is `/`, and it does not end
/// with `/` itself.
pub proof fn law_trailing_slashes_dropped(s: Seq<char>)
    ensures
        trim_trailing_slashes(s).len() <= s.len(),
        trim_trailing_slashes(s) == s.take(trim_trailing_slashes(s).len() as int),
        forall|i: int|
            trim_trailing_slashes(s).len() <= i < s.len() ==> #[trigger] s[i] == '/',
        trim_trailing_slashes(s).len() > 0 ==> trim_trailing_slashes(s).last() != '/',
    decreases s.len(),
{
    if s.len() > 0 && s.last() == '/' {
        let rest = s.drop_last();
        law_trailing_slashes_dropped(rest);
        let r = trim_trailing_slashes(s);
        assert(r =~= s.take(r.len() as int));
        assert forall|i: int| r.len() <= i < s.len() implies #[trigger] s[i] == '/' by {
            if i < rest.len() {
                assert(s[i] == rest[i]);
            }
        }
    } else {
        assert(s.take(s.len() as int) =~= s);
    }
}

/// Percent-encoding works byte by byte: encoding two runs of bytes one
/// after the other gives the two encodings one after the other; an
/// unreserved byte stands for itself, any other byte becomes `%` and its
/// two upper-case hexadecimal digits (`0`-`9`, `A`-`F`), high half first.
pub proof fn law_percent_encoding(a: Seq<u8>, b: Seq<u8>, x: u8)
    ensures
        percent_encoded(a + b) == percent_encoded(a) + percent_encoded(b),
        is_unreserved(x) ==> percent_encoded(seq![x]) == seq![x as char],
        !is_unreserved(x) ==> {
            let e = percent_encoded(seq![x]);
            let hi = x / 16;
            let lo = x % 16;
            &&& e.len() == 3
            &&& e[0] == '%'
            &&& e[1] as int == if hi < 10 {
                hi + 48
            } else {
                hi + 55
            }
            &&& e[2] as int == if lo < 10 {
                lo + 48
            } else {
                lo + 55
            }
        },
    decreases b.len(),
{
    if b.len() > 0 {
        law_percent_encoding(a, b.drop_last(), x);
        assert((a + b).drop_last() =~= a + b.drop_last());
        assert((a + b).last() == b.last());
    } else {
        assert(a + b =~= a);
        assert(percent_encoded(b) =~= Seq::<char>::empty());
    }
    let one = seq![x];
    assert(one.drop_last() =~= Seq::<u8>::empty());
    assert(percent_encoded(one.drop_last()) =~= Seq::<char>::empty());
    assert(upper_hex(x / 16) as int == if x / 16 < 10 {
        x / 16 + 48
    } else {
        x / 16 + 55
    });
    assert(upper_hex(x % 16) as int == if x % 16 < 10 {
        x % 16 + 48
    } else {
        x % 16 + 55
    });
}

/// A status is a success exactly when it lies from 200 to 299.
pub proof fn law_success_is_2xx(status: u16)
    ensures
        is_success(status) <==> 200 <= status < 300,
{
}

} // verus!

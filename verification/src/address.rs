//! The addresses that publishers connect to.

use vstd::prelude::*;
use vstd::string::StringExecFns;
use url::Url;
use crate::error::VqdError;
use crate::text::{chars_of, ends_with, has_suffix, starts_with};

verus! {

/// How the path of a publisher's address ends.
pub const PUBLISHER_PATH: &'static str = "/pub";

/// A URL: its text, its path, and whether the path is opaque, as that of a `mailto:`
/// address is.
#[derive(Debug)]
pub struct Address {
    pub href: String,
    pub path: String,
    pub opaque: bool,
}

/// What an address says.
#[verifier::ext_equal]
pub struct AddressText {
    pub href: Seq<char>,
    pub path: Seq<char>,
    pub opaque: bool,
}

impl View for Address {
    type V = AddressText;

    open spec fn view(&self) -> AddressText {
        AddressText { href: self.href@, path: self.path@, opaque: self.opaque }
    }
}

/// What `Url::parse` makes of `input`: the URL, or the text of the error.
pub uninterp spec fn url_parse(input: Seq<char>) -> Result<AddressText, Seq<char>>;

/// What `Url::set_path` makes of the URL in `input` and `path`.
pub uninterp spec fn url_set_path(input: Seq<char>, path: Seq<char>) -> AddressText;

/// The URL `href` stays below four gigabytes with `path` in place of its own, though
/// every character of the path be percent-encoded. Both are ASCII.
pub open spec fn has_room(href: Seq<char>, path: Seq<char>) -> bool {
    href.len() + 3 * path.len() + 3 <= u32::MAX
}

/// The path of the publisher keeps its ending `/pub` when it becomes the path of `given`:
/// the path of `given` is not opaque, or something stands before the ending.
pub open spec fn keeps_ending(given: AddressText) -> bool {
    given.opaque ==> publisher_path(given.path).len() > PUBLISHER_PATH@.len()
}

/// The path of the publisher stays as it is when it becomes the path of `given`: it keeps
/// its ending, and `given` is no address of a file, in whose path a drive letter may be
/// written in another way.
pub open spec fn keeps_path(given: AddressText) -> bool {
    keeps_ending(given) && !starts_with(given.href, "file:"@)
}

/// `Url::parse`: the text of the URL, its path and whether the path is opaque, or the
/// text of the error. Which URL and which error that is, is named and not stated. Of the
/// path this is stated: where it is not opaque and there is any, it starts with a slash.
/// `Url::parse` counts characters of the text in an `i32`, which must not overflow.
#[verifier::external_body]
fn parse_url(input: &str) -> (r: Result<Address, String>)
    requires
        input@.len() <= i32::MAX,
    ensures
        match r {
            Ok(address) => url_parse(input@) == Ok::<AddressText, Seq<char>>(address@) && (
            address.opaque || address.path@.len() == 0 || address.path@[0] == '/'),
            Err(e) => url_parse(input@) == Err::<AddressText, Seq<char>>(e@),
        },
{
    let url = Url::parse(input).map_err(|e| e.to_string())?;
    Ok(Address {
        href: url.as_str().to_string(),
        path: url.path().to_string(),
        opaque: url.cannot_be_a_base(),
    })
}

/// `Url::set_path` on the URL in `input`, with the path of the publisher. The result is
/// named. Of its path this is stated. It is the given path, except for the address of a
/// file, and where the path of the URL is opaque and empty: then the slash that it starts
/// with is percent-encoded. With a file too it ends with the path of publishers.
/// `Url::set_path` panics on a URL of four gigabytes or more, and `Url::parse`, which reads
/// the text first, counts its characters in an `i32`.
#[verifier::external_body]
fn set_url_path(input: &str, path: &str) -> (r: Result<Address, String>)
    requires
        input@.len() <= i32::MAX,
        url_parse(input@) matches Ok(given) && path@ == publisher_path(given.path) && has_room(
            given.href,
            path@,
        ) && (given.opaque || path@[0] == '/'),
    ensures
        match r {
            Ok(address) => address@ == url_set_path(input@, path@) && (keeps_ending(
                url_parse(input@)->Ok_0,
            ) ==> ends_with(address.path@, PUBLISHER_PATH@)) && (keeps_path(
                url_parse(input@)->Ok_0,
            ) ==> address.path@ == path@),
            Err(e) => url_parse(input@) == Err::<AddressText, Seq<char>>(e@),
        },
{
    let mut url = Url::parse(input).map_err(|e| e.to_string())?;
    url.set_path(path);
    Ok(Address {
        href: url.as_str().to_string(),
        path: url.path().to_string(),
        opaque: url.cannot_be_a_base(),
    })
}

/// The path under which a publisher publishes to `path`.
pub open spec fn publisher_path(path: Seq<char>) -> Seq<char> {
    if ends_with(path, PUBLISHER_PATH@) {
        path
    } else if ends_with(path, "/"@) {
        path + "pub"@
    } else {
        path + PUBLISHER_PATH@
    }
}

/// The address to which a publisher connects that is given `server_url`, or the text of
/// the error where that is no URL.
pub open spec fn publisher_address(server_url: Seq<char>) -> Result<AddressText, Seq<char>> {
    match url_parse(server_url) {
        Err(e) => Err(e),
        Ok(address) => if ends_with(address.path, PUBLISHER_PATH@) {
            Ok(address)
        } else {
            Ok(url_set_path(server_url, publisher_path(address.path)))
        },
    }
}

/// The characters of the URL can be counted in an `i32`, and the address of the publisher
/// stays below four gigabytes.
pub open spec fn publisher_address_has_room(server_url: Seq<char>) -> bool {
    &&& server_url.len() <= i32::MAX
    &&& url_parse(server_url) matches Ok(address) ==> ends_with(address.path, PUBLISHER_PATH@)
        || has_room(address.href, publisher_path(address.path))
}

/// The path under which a publisher publishes to `path`: the path itself where it ends
/// with `/pub`, and else the path with that appended.
pub fn extend_path(path: &str) -> (r: String)
    ensures
        r@ == publisher_path(path@),
        ends_with(r@, PUBLISHER_PATH@),
{
    let mut extended: String = path.to_owned();
    if has_suffix(path, PUBLISHER_PATH) {
        return extended;
    }
    if has_suffix(path, "/") {
        extended.append("pub");
    } else {
        extended.append(PUBLISHER_PATH);
    }
    proof {
        lemma_publisher_path(path@);
    }
    extended
}

proof fn lemma_publisher_path(path: Seq<char>)
    ensures
        ends_with(publisher_path(path), PUBLISHER_PATH@),
        path.len() == 0 || path[0] == '/' ==> publisher_path(path)[0] == '/',
{
    reveal_strlit("/pub");
    reveal_strlit("pub");
    reveal_strlit("/");
    let r = publisher_path(path);
    if !ends_with(path, PUBLISHER_PATH@) {
        if ends_with(path, "/"@) {
            assert(path.subrange(path.len() - 1, path.len() as int)[0] == path.last());
        }
        assert(r.subrange(r.len() - 4, r.len() as int) =~= PUBLISHER_PATH@);
    }
}

/// `r` is the address that a publisher connects to that is given `server_url`. Its path
/// ends with `/pub`, unless the path of the server is opaque and empty, and is the path of
/// the server with that ending, unless the address is that of a file.
pub open spec fn is_publisher_address(server_url: Seq<char>, r: Result<Address, VqdError>) -> bool {
    match (publisher_address(server_url), r) {
        (Ok(wanted), Ok(address)) => {
            &&& address@ == wanted
            &&& keeps_ending(url_parse(server_url)->Ok_0) ==> ends_with(
                address.path@,
                PUBLISHER_PATH@,
            )
            &&& keeps_path(url_parse(server_url)->Ok_0) ==> address.path@ == publisher_path(
                url_parse(server_url)->Ok_0.path,
            )
        },
        (Err(message), Err(e)) => e.is_other(message),
        _ => false,
    }
}

/// The address that a publisher connects to: the URL of the server, with `/pub` at the
/// end of its path.
pub fn publisher_url(server_url: &str) -> (r: Result<Address, VqdError>)
    requires
        publisher_address_has_room(server_url@),
    ensures
        is_publisher_address(server_url@, r),
{
    let given: Address = match parse_url(server_url) {
        Ok(address) => address,
        Err(e) => return Err(VqdError::Other(e)),
    };
    if has_suffix(given.path.as_str(), PUBLISHER_PATH) {
        return Ok(given);
    }
    let path: String = extend_path(given.path.as_str());
    proof {
        lemma_publisher_path(given.path@);
    }
    match set_url_path(server_url, path.as_str()) {
        Ok(address) => Ok(address),
        Err(e) => Err(VqdError::Other(e)),
    }
}

/// Whether `has_room` holds.
fn room_for(href: &str, path: &str) -> (r: bool)
    ensures
        r == has_room(href@, path@),
{
    let href_len: usize = chars_of(href).len();
    let path_len: usize = chars_of(path).len();
    let limit: usize = u32::MAX as usize;
    href_len <= limit && path_len <= limit / 3 && href_len as u64 + 3 * path_len as u64 + 3
        <= u32::MAX as u64
}

/// The address that a publisher connects to, or `None` where the URL has too many
/// characters or the address would not stay below four gigabytes.
pub fn try_publisher_url(server_url: &str) -> (r: Option<Result<Address, VqdError>>)
    ensures
        r is Some <==> publisher_address_has_room(server_url@),
        r matches Some(result) ==> is_publisher_address(server_url@, result),
{
    if chars_of(server_url).len() > i32::MAX as usize {
        return None;
    }
    if let Ok(given) = parse_url(server_url) {
        if !has_suffix(given.path.as_str(), PUBLISHER_PATH) {
            let path: String = extend_path(given.path.as_str());
            if !room_for(given.href.as_str(), path.as_str()) {
                return None;
            }
        }
    }
    Some(publisher_url(server_url))
}

/// The path of a publisher is extended once: under it the publisher publishes to it.
pub proof fn law_path_is_extended_once(path: Seq<char>)
    ensures
        publisher_path(publisher_path(path)) == publisher_path(path),
{
    lemma_publisher_path(path);
}

/// The address of a publisher is the address of a publisher that is given it, where its
/// text is read as it was written.
pub proof fn law_address_of_address_is_itself(address: AddressText)
    requires
        url_parse(address.href) == Ok::<AddressText, Seq<char>>(address),
        ends_with(address.path, PUBLISHER_PATH@),
    ensures
        publisher_address(address.href) == Ok::<AddressText, Seq<char>>(address),
{
}

/// The path of a publisher is the given path with as little appended as makes it end with
/// `/pub`: nothing where it ends so, three characters where it ends with a slash, and else
/// four.
pub proof fn law_path_is_extended_by_ending(path: Seq<char>)
    ensures
        ({
            let r = publisher_path(path);
            let n = path.len() as int;
            let ends = n >= 4 && path[n - 4] == '/' && path[n - 3] == 'p' && path[n - 2] == 'u'
                && path[n - 1] == 'b';
            &&& r.take(n) == path
            &&& r.len() == n + if ends {
                0int
            } else if n > 0 && path[n - 1] == '/' {
                3
            } else {
                4
            }
            &&& r.len() >= 4
            &&& r[r.len() - 4] == '/'
            &&& r[r.len() - 3] == 'p'
            &&& r[r.len() - 2] == 'u'
            &&& r[r.len() - 1] == 'b'
        }),
{
    reveal_strlit("/pub");
    reveal_strlit("pub");
    reveal_strlit("/");
    lemma_publisher_path(path);
    let r = publisher_path(path);
    let n = path.len() as int;
    assert(r.take(n) =~= path);
    let last4 = r.subrange(r.len() - 4, r.len() as int);
    assert(last4[0] == r[r.len() - 4] && last4[1] == r[r.len() - 3] && last4[2] == r[r.len() - 2]
        && last4[3] == r[r.len() - 1]);
    if n >= 4 {
        let tail = path.subrange(n - 4, n);
        assert(tail[0] == path[n - 4] && tail[1] == path[n - 3] && tail[2] == path[n - 2] && tail[3]
            == path[n - 1]);
        if path[n - 4] == '/' && path[n - 3] == 'p' && path[n - 2] == 'u' && path[n - 1] == 'b' {
            assert(tail =~= "/pub"@);
        }
    }
    if n > 0 {
        let tail = path.subrange(n - 1, n);
        assert(tail[0] == path[n - 1]);
        if path[n - 1] == '/' {
            assert(tail =~= "/"@);
        }
    }
}

/// A text that is no URL has no address, and the error is that of reading it. A URL whose
/// path ends with `/pub` is its own address. Any other has the address that setting the
/// path of the publisher gives it.
pub proof fn law_address_of_server(server_url: Seq<char>)
    ensures
        url_parse(server_url) matches Err(e) ==> publisher_address(server_url) == Err::<
            AddressText,
            Seq<char>,
        >(e),
        url_parse(server_url) matches Ok(given) ==> publisher_address(server_url) == Ok::<
            AddressText,
            Seq<char>,
        >(
            if publisher_path(given.path) == given.path {
                given
            } else {
                url_set_path(server_url, publisher_path(given.path))
            },
        ),
{
    reveal_strlit("/pub");
    reveal_strlit("pub");
}

/// There is room for every address that is not longer than a gigabyte, and for every text
/// of two gigabytes that is no URL.
pub proof fn law_room_is_ample(server_url: Seq<char>)
    requires
        server_url.len() <= 2_000_000_000,
        url_parse(server_url) matches Ok(given) ==> given.href.len() <= 1_000_000_000
            && given.path.len() <= 1_000_000_000,
    ensures
        publisher_address_has_room(server_url),
{
    reveal_strlit("/pub");
    reveal_strlit("pub");
}

/// What a publisher is given for the URL of the server is its address, with all that the
/// address says, or the error of reading the URL. The path is that of the server with its
/// ending, except for a file and an opaque path that is empty.
pub proof fn law_given_address_is_the_address(server_url: Seq<char>, r: Result<Address, VqdError>)
    requires
        is_publisher_address(server_url, r),
    ensures
        r matches Ok(address) ==> publisher_address(server_url) == Ok::<AddressText, Seq<char>>(
            AddressText {
                href: address.href@,
                path: address.path@,
                opaque: address.opaque,
            },
        ),
        r matches Err(e) ==> publisher_address(server_url) is Err && e is Other
            && e->Other_0@ == publisher_address(server_url)->Err_0,
        r matches Ok(address) ==> url_parse(server_url) matches Ok(given) ==> !given.opaque
            && !starts_with(given.href, "file:"@) ==> address.path@ == publisher_path(given.path),
        r matches Ok(address) ==> url_parse(server_url) matches Ok(given) ==> !given.opaque
            ==> ends_with(address.path@, "/pub"@),
{
}

} // verus!

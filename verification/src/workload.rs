//! Where a workload comes from, and what is done to it before it runs.
use vstd::prelude::*;

verus! {

/// A workload, as it was named or once it has been read.
#[derive(Debug, PartialEq, Eq)]
pub enum Workload {
    /// The serialization of the URL to get the workload from.
    Url(String),
    /// The workload itself.
    Binary(Vec<u8>),
}

/// Where a workload is found.
#[derive(Debug, PartialEq, Eq)]
pub enum Location {
    /// At a path relative to the current directory, which is the name of the workload.
    Relative,
    /// As the URL says.
    Url(Workload),
    /// The name of the workload is neither.
    Invalid,
}

/// How a workload is retrieved.
#[derive(Debug, PartialEq, Eq)]
pub enum Retrieval {
    /// It is there.
    Ready(Vec<u8>),
    /// From the file that the URL names.
    File(String),
    /// By a request for the URL.
    Http(String),
    /// Not at all: the URL has this scheme.
    Unsupported(String),
}

/// Whether a name starts with a dot.
pub open spec fn is_relative(workload: Seq<char>) -> bool {
    workload.len() > 0 && workload[0] == '.'
}

/// The serialization of the URL that a text parses to, if it does.
pub uninterp spec fn parsed_url(text: Seq<char>) -> Option<Seq<char>>;

/// The content of an optional string.
pub open spec fn text_model(text: Option<String>) -> Option<Seq<char>> {
    match text {
        Some(text) => Some(text@),
        None => None,
    }
}

/// Calls [`url::Url::parse`], which tells whether the text is an absolute URL, and takes the
/// serialization of what it gives. What a given text parses to is not stated.
#[verifier::external_body]
fn parse_url(text: &str) -> (r: Option<String>)
    ensures
        text_model(r) == parsed_url(text@),
{
    url::Url::parse(text).ok().map(String::from)
}

/// Whether this is where a workload is found, of whose name `parsed` is the URL.
pub open spec fn located(r: Location, workload: Seq<char>, parsed: Option<Seq<char>>) -> bool {
    if is_relative(workload) {
        r is Relative
    } else {
        match parsed {
            Some(href) => r matches Location::Url(Workload::Url(text)) && text@ == href,
            None => r is Invalid,
        }
    }
}

/// Tells where a workload is found whose name starts with a dot or parses to the URL.
pub fn locate_parsed(workload: &str, parsed: Option<String>) -> (r: Location)
    ensures
        located(r, workload@, text_model(parsed)),
        r is Relative <==> workload@.len() > 0 && workload@[0] == '.',
        r is Invalid ==> parsed is None,
        r matches Location::Url(found) ==> parsed matches Some(href) && found == Workload::Url(
            href,
        ),
{
    if workload.unicode_len() > 0 && workload.get_char(0) == '.' {
        return Location::Relative;
    }
    match parsed {
        Some(href) => Location::Url(Workload::Url(href)),
        None => Location::Invalid,
    }
}

/// Tells where a workload is found.
pub fn locate(workload: &str) -> (r: Location)
    ensures
        located(r, workload@, parsed_url(workload@)),
        r is Relative <==> workload@.len() > 0 && workload@[0] == '.',
        r is Invalid ==> parsed_url(workload@) is None,
        r matches Location::Url(found) ==> (found matches Workload::Url(href) && parsed_url(
            workload@,
        ) == Some(href@)),
{
    locate_parsed(workload, parse_url(workload))
}

/// The number of characters before the first colon from `i` on.
pub open spec fn colon_from(text: Seq<char>, i: int) -> int
    decreases text.len() - i,
{
    if i >= text.len() || text[i] == ':' {
        i
    } else {
        colon_from(text, i + 1)
    }
}

/// The scheme of a URL: what its serialization has before the first colon.
pub open spec fn scheme(href: Seq<char>) -> Seq<char> {
    href.take(colon_from(href, 0))
}

/// The scheme of a URL, given its serialization.
pub fn url_scheme(href: &str) -> (r: String)
    ensures
        r@ == scheme(href@),
        r@.len() <= href@.len(),
        forall|i: int| 0 <= i < r@.len() ==> r@[i] == href@[i] && href@[i] != ':',
        r@.len() < href@.len() ==> href@[r@.len() as int] == ':',
{
    let n: usize = href.unicode_len();
    let mut i: usize = 0;
    while i < n && href.get_char(i) != ':'
        invariant
            i <= n,
            n == href@.len(),
            colon_from(href@, i as int) == colon_from(href@, 0),
            forall|j: int| 0 <= j < i ==> href@[j] != ':',
        decreases n - i,
    {
        i = i + 1;
    }
    href.substring_char(0, i).to_owned()
}

/// Whether this is how a workload is retrieved.
pub open spec fn retrieved(r: Retrieval, workload: Workload) -> bool {
    match workload {
        Workload::Binary(wasm) => r == Retrieval::Ready(wasm),
        Workload::Url(href) => if scheme(href@) == "file"@ {
            r == Retrieval::File(href)
        } else if scheme(href@) == "http"@ || scheme(href@) == "https"@ {
            r == Retrieval::Http(href)
        } else {
            r matches Retrieval::Unsupported(text) && text@ == scheme(href@)
        },
    }
}

impl Workload {
    /// Tells how the workload is retrieved.
    pub fn retrieval(self) -> (r: Retrieval)
        ensures
            retrieved(r, self),
    {
        match self {
            Workload::Binary(wasm) => Retrieval::Ready(wasm),
            Workload::Url(href) => {
                let scheme: String = url_scheme(href.as_str());
                if scheme == "file".to_owned() {
                    Retrieval::File(href)
                } else if scheme == "http".to_owned() || scheme == "https".to_owned() {
                    Retrieval::Http(href)
                } else {
                    Retrieval::Unsupported(scheme)
                }
            },
        }
    }
}

/// Whether bytes start with the header of a core WebAssembly module.
pub open spec fn has_core_header(b: Seq<u8>) -> bool {
    b.len() >= 8 && b.take(8) == seq![0u8, 0x61u8, 0x73u8, 0x6du8, 1u8, 0u8, 0u8, 0u8]
}

/// Calls [`wasmparser::Parser::is_core_wasm`], which compares the first eight bytes with the
/// header of a core module.
#[verifier::external_body]
fn is_core_wasm(wasm: &[u8]) -> (r: bool)
    ensures
        r == has_core_header(wasm@),
{
    wasmparser::Parser::is_core_wasm(wasm)
}

/// What is encoded as a component, and how.
#[derive(Debug, PartialEq, Eq)]
pub struct Encoding {
    /// Whether the component is validated.
    pub validate: bool,
    /// The core module.
    pub module: Vec<u8>,
    /// The name of the module that the adapter stands in for.
    pub adapter_name: String,
}

/// What is done to a workload before it is run.
#[derive(Debug, PartialEq, Eq)]
pub enum Preparation {
    /// Nothing: it is taken to be a component.
    Ready(Vec<u8>),
    /// It is encoded as a component.
    Encode(Encoding),
}

/// Whether this is what is done to a workload before it is run.
pub open spec fn prepared(r: Preparation, wasm: Vec<u8>) -> bool {
    if has_core_header(wasm@) {
        r matches Preparation::Encode(encoding) && encoding.validate && encoding.module == wasm
            && encoding.adapter_name@ == "wasi_snapshot_preview1"@
    } else {
        r == Preparation::Ready(wasm)
    }
}

/// Tells what is done to a workload before it is run: a core module is encoded as a component,
/// with an adapter for the first preview of WASI.
pub fn prepare(wasm: Vec<u8>) -> (r: Preparation)
    ensures
        prepared(r, wasm),
        r is Encode <==> wasm@.len() >= 8 && wasm@.take(8) == seq![
            0u8,
            0x61u8,
            0x73u8,
            0x6du8,
            1u8,
            0u8,
            0u8,
            0u8,
        ],
{
    if is_core_wasm(wasm.as_slice()) {
        Preparation::Encode(
            Encoding {
                validate: true,
                module: wasm,
                adapter_name: "wasi_snapshot_preview1".to_owned(),
            },
        )
    } else {
        Preparation::Ready(wasm)
    }
}

/// What a binary describes.
#[derive(Debug, Clone, Copy, PartialEq, Eq, Structural)]
pub enum WitKind {
    /// A component, with a world.
    Component,
    /// A package of interfaces and worlds.
    Package,
    /// Neither.
    Invalid,
}

/// Why a workload cannot be run.
#[derive(Debug, Clone, Copy, PartialEq, Eq, Structural)]
pub enum WorldError {
    /// The binary cannot be decoded.
    Undecodable,
    /// The binary is a package.
    WitPackage,
}

/// Checks that a binary describes a component.
pub fn check_world(kind: WitKind) -> (r: Result<(), WorldError>)
    ensures
        r == match kind {
            WitKind::Component => Ok::<(), WorldError>(()),
            WitKind::Package => Err(WorldError::WitPackage),
            WitKind::Invalid => Err(WorldError::Undecodable),
        },
{
    match kind {
        WitKind::Component => Ok(()),
        WitKind::Package => Err(WorldError::WitPackage),
        WitKind::Invalid => Err(WorldError::Undecodable),
    }
}

/// A workload is at a relative path exactly where its name starts with a dot, and otherwise at the
/// URL that its name is.
pub proof fn location_goes_by_name(workload: &str, r: Location)
    requires
        call_ensures(locate, (workload,), r),
    ensures
        workload@.len() > 0 && workload@[0] == '.' ==> r is Relative,
        workload@.len() == 0 || workload@[0] != '.' ==> match parsed_url(workload@) {
            Some(href) => r matches Location::Url(Workload::Url(text)) && text@ == href,
            None => r is Invalid,
        },
{
}

/// What the name of a workload parses to matters exactly where the name does not start with a dot,
/// and is then where the workload is found.
pub proof fn location_goes_by_url(workload: &str, parsed: Option<String>, r: Location)
    requires
        call_ensures(locate_parsed, (workload, parsed), r),
    ensures
        workload@.len() > 0 && workload@[0] == '.' ==> r is Relative,
        workload@.len() == 0 || workload@[0] != '.' ==> match parsed {
            Some(href) => r matches Location::Url(Workload::Url(text)) && text@ == href@,
            None => r is Invalid,
        },
{
}

/// The scheme of a URL is whatever stands before its first colon.
pub proof fn scheme_ends_at_colon(href: &str, name: Seq<char>, rest: Seq<char>, r: String)
    requires
        call_ensures(url_scheme, (href,), r),
        href@ == name + seq![':'] + rest,
        !name.contains(':'),
    ensures
        r@ == name,
{
    assert forall|i: int| 0 <= i < name.len() implies href@[i] == name[i] && href@[i] != ':' by {
        assert(name.contains(name[i]));
    }
    assert(href@[name.len() as int] == ':');
    if r@.len() < name.len() {
        assert(href@[r@.len() as int] == ':');
    }
    assert(r@.len() == name.len());
    assert(r@ =~= name);
}

/// A workload is read from a file, or asked for, by the scheme of its URL and nothing else of it,
/// and the URL is handed on as it is.
pub proof fn retrieval_goes_by_scheme(
    href: String,
    name: Seq<char>,
    rest: Seq<char>,
    r: Retrieval,
)
    requires
        call_ensures(Workload::retrieval, (Workload::Url(href),), r),
        href@ == name + seq![':'] + rest,
        !name.contains(':'),
    ensures
        r is File <==> name == "file"@,
        r is Http <==> name == "http"@ || name == "https"@,
        r matches Retrieval::File(text) ==> text@ == href@,
        r matches Retrieval::Http(text) ==> text@ == href@,
        r matches Retrieval::Unsupported(text) ==> text@ == name,
        !(r is Ready),
{
    lemma_colon(href@, name, rest, 0);
    assert(scheme(href@) =~= name);
    reveal_strlit("file");
    reveal_strlit("http");
    reveal_strlit("https");
    assert("file"@[0] != "http"@[0] && "file"@[0] != "https"@[0]);
}

proof fn lemma_colon(href: Seq<char>, name: Seq<char>, rest: Seq<char>, i: int)
    requires
        href == name + seq![':'] + rest,
        !name.contains(':'),
        0 <= i <= name.len(),
    ensures
        colon_from(href, i) == name.len(),
    decreases name.len() - i,
{
    if i < name.len() {
        assert(name.contains(name[i]));
        assert(href[i] == name[i]);
        lemma_colon(href, name, rest, i + 1);
    } else {
        assert(href[i] == ':');
    }
}

/// A workload that has been read is there as it was read.
pub proof fn binary_is_there(wasm: Vec<u8>, r: Retrieval)
    requires
        call_ensures(Workload::retrieval, (Workload::Binary(wasm),), r),
    ensures
        r matches Retrieval::Ready(bytes) && bytes@ == wasm@,
{
}

/// What starts with the header of a core module is encoded as a component, whatever follows the
/// header: all of it, validated, with the adapter for the first preview of WASI. Anything else is
/// left as it is.
pub proof fn core_modules_are_encoded(wasm: Vec<u8>, r: Preparation)
    requires
        call_ensures(prepare, (wasm,), r),
    ensures
        wasm@.len() >= 8 && wasm@[0] == 0 && wasm@[1] == 0x61 && wasm@[2] == 0x73 && wasm@[3]
            == 0x6d && wasm@[4] == 1 && wasm@[5] == 0 && wasm@[6] == 0 && wasm@[7] == 0 ==> (
        r matches Preparation::Encode(encoding) && encoding.validate && encoding.module@ == wasm@
            && encoding.adapter_name@ == "wasi_snapshot_preview1"@),
        wasm@.len() < 8 || wasm@[0] != 0 || wasm@[1] != 0x61 || wasm@[2] != 0x73 || wasm@[3]
            != 0x6d || wasm@[4] != 1 || wasm@[5] != 0 || wasm@[6] != 0 || wasm@[7] != 0 ==> (
        r matches Preparation::Ready(bytes) && bytes@ == wasm@),
{
    let header = seq![0u8, 0x61u8, 0x73u8, 0x6du8, 1u8, 0u8, 0u8, 0u8];
    if wasm@.len() >= 8 {
        let start = wasm@.take(8);
        if wasm@[0] == 0 && wasm@[1] == 0x61 && wasm@[2] == 0x73 && wasm@[3] == 0x6d && wasm@[4]
            == 1 && wasm@[5] == 0 && wasm@[6] == 0 && wasm@[7] == 0 {
            assert(start =~= header);
        } else if start == header {
            assert(start[0] == wasm@[0] && start[1] == wasm@[1] && start[2] == wasm@[2] && start[3]
                == wasm@[3] && start[4] == wasm@[4] && start[5] == wasm@[5] && start[6] == wasm@[6]
                && start[7] == wasm@[7]);
        }
    }
}

/// Whether a workload is encoded goes by its first eight bytes alone.
pub proof fn preparation_goes_by_header(
    wasm: Vec<u8>,
    other: Vec<u8>,
    r: Preparation,
    s: Preparation,
)
    requires
        call_ensures(prepare, (wasm,), r),
        call_ensures(prepare, (other,), s),
        wasm@.len() >= 8,
        other@.len() >= 8,
        wasm@.take(8) == other@.take(8),
    ensures
        r is Encode <==> s is Encode,
{
}

/// Only a component is run, and a package is told from what cannot be decoded.
pub proof fn only_components_are_run(kind: WitKind, r: Result<(), WorldError>)
    requires
        call_ensures(check_world, (kind,), r),
    ensures
        r is Ok <==> kind is Component,
        r == Err::<(), WorldError>(WorldError::WitPackage) <==> kind is Package,
        r == Err::<(), WorldError>(WorldError::Undecodable) <==> kind is Invalid,
{
}

} // verus!

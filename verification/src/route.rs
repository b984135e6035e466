//! The server's configuration and the decisions of its request handler.
//!
//! Handling a request alternates decisions with work on the file system.
//! Each decision here takes what the previous step observed and returns the
//! next `Action`; the caller performs it and reports what it found to the
//! function that the action names.

use vstd::prelude::*;
use vstd::string::StringExecFns;
use crate::resolve::join_path;
use crate::resolve::join_path_spec;
use crate::resolve::resolve_url;
use crate::resolve::sanitize_path;
use crate::text::chars_of;

verus! {

/// The character of a decimal digit.
pub open spec fn digit_char(d: nat) -> char {
    (d + 0x30) as char
}

/// The decimal representation of `n`, without leading zeros.
pub open spec fn decimal(n: nat) -> Seq<char>
    decreases n,
{
    if n < 10 {
        seq![digit_char(n)]
    } else {
        decimal(n / 10).push(digit_char(n % 10))
    }
}

/// The `Cache-Control` value sent with served files when a lifetime is set.
pub open spec fn cache_control_spec(seconds: nat) -> Seq<char> {
    "public, max-age="@ + decimal(seconds)
}

/// The number that a string of decimal digits spells.
pub open spec fn digits_value(s: Seq<char>) -> int
    decreases s.len(),
{
    if s.len() == 0 {
        0
    } else {
        digits_value(s.drop_last()) * 10 + (s.last() as int - '0' as int)
    }
}

/// `decimal(n)` is the base-10 spelling of `n`: it is made of digits only,
/// starts with `0` only when it is `0` itself, and spells `n`.
pub proof fn lemma_decimal_spells_n(n: nat)
    ensures
        decimal(n).len() >= 1,
        forall|i: int| 0 <= i < decimal(n).len() ==> '0' <= #[trigger] decimal(n)[i] <= '9',
        decimal(n)[0] == '0' ==> n == 0 && decimal(n).len() == 1,
        digits_value(decimal(n)) == n,
    decreases n,
{
    if n < 10 {
        let s = decimal(n);
        assert(s == seq![digit_char(n)]);
        assert(digit_char(n) as int == n + 0x30);
        assert(s.drop_last() == Seq::<char>::empty());
        assert('0' as int == 48);
        assert(s.last() == digit_char(n));
        assert(digits_value(s) == digits_value(s.drop_last()) * 10 + (s.last() as int - '0' as int));
        assert(digits_value(Seq::<char>::empty()) == 0);
    } else {
        lemma_decimal_spells_n(n / 10);
        let init = decimal(n / 10);
        let s = decimal(n);
        let d = digit_char(n % 10);
        assert(s == init.push(d));
        assert(d as int == n % 10 + 0x30);
        assert(s.drop_last() == init);
        assert(s[0] == init[0]);
        assert forall|i: int| 0 <= i < s.len() implies '0' <= #[trigger] s[i] <= '9' by {
            if i < init.len() {
                assert(s[i] == init[i]);
            }
        }
        assert('0' as int == 48);
        assert(s.last() == d);
        assert(digits_value(s) == digits_value(init) * 10 + (d as int - '0' as int));
        assert((n / 10) * 10 + n % 10 == n);
    }
}

fn push_decimal(out: &mut String, n: u64)
    ensures
        final(out)@ == old(out)@ + decimal(n as nat),
    decreases n,
{
    if n >= 10 {
        push_decimal(out, n / 10);
    }
    let d: u8 = (n % 10) as u8;
    out.push((48u8 + d) as char);
    proof {
        if n >= 10 {
            assert(old(out)@ + decimal(n as nat) =~= old(out)@ + decimal((n / 10) as nat)
                + seq![digit_char((n % 10) as nat)]);
        } else {
            assert(old(out)@ + decimal(n as nat) =~= old(out)@ + seq![digit_char(n as nat)]);
        }
    }
}

/// The `Cache-Control` value `public, max-age=<seconds>`.
pub fn cache_control_value(seconds: u64) -> (value: String)
    ensures
        value@ == cache_control_spec(seconds as nat),
{
    let mut value = String::new();
    value.append("public, max-age=");
    push_decimal(&mut value, seconds);
    value
}

/// What the handler works from: the served root, whether unknown routes
/// fall back to the root `index.html`, and the `Cache-Control` value sent
/// with served files, if any.
#[derive(Debug, Clone, PartialEq, Eq)]
pub struct AppState {
    pub root: String,
    pub spa: bool,
    pub cache_control: Option<String>,
}

/// The text held by an optional string.
pub open spec fn opt_view(o: Option<String>) -> Option<Seq<char>> {
    match o {
        Some(s) => Some(s@),
        None => None,
    }
}

/// The configuration as plain text.
pub struct AppStateView {
    pub root: Seq<char>,
    pub spa: bool,
    pub cache_control: Option<Seq<char>>,
}

impl View for AppState {
    type V = AppStateView;

    open spec fn view(&self) -> AppStateView {
        AppStateView { root: self.root@, spa: self.spa, cache_control: opt_view(self.cache_control) }
    }
}

impl AppState {
    /// The configuration for serving `root`; `cache_seconds`, where set,
    /// becomes the value `public, max-age=<seconds>`.
    pub fn new(root: String, spa: bool, cache_seconds: Option<u64>) -> (state: AppState)
        ensures
            state.root@ == root@,
            state.spa == spa,
            state@.cache_control == match cache_seconds {
                Some(secs) => Some(cache_control_spec(secs as nat)),
                None => None::<Seq<char>>,
            },
    {
        let cache_control = match cache_seconds {
            Some(secs) => Some(cache_control_value(secs)),
            None => None,
        };
        AppState { root, spa, cache_control }
    }
}

/// A request that resolved inside the root: its URL path and the
/// file-system path it names.
#[derive(Debug, Clone, PartialEq, Eq)]
pub struct Route {
    pub url_path: String,
    pub fs_path: String,
}

/// A route as plain text.
pub struct RouteView {
    pub url_path: Seq<char>,
    pub fs_path: Seq<char>,
}

impl View for Route {
    type V = RouteView;

    open spec fn view(&self) -> RouteView {
        RouteView { url_path: self.url_path@, fs_path: self.fs_path@ }
    }
}

/// What the handler asks its caller to do next.
#[derive(Debug, Clone, PartialEq, Eq)]
pub enum Action {
    /// Answer `403 Forbidden`.
    Forbidden,
    /// Answer `404 Not Found`.
    NotFound,
    /// Serve the file at `path` for the incoming request, adding the
    /// `Cache-Control` value if there is one; report the status to
    /// `after_candidate`.
    TryFile { path: String, cache_control: Option<String> },
    /// Answer with the response of the file just tried.
    ReturnServed,
    /// Find out whether `path` is a directory and report it to
    /// `after_directory_check`.
    CheckDirectory { path: String },
    /// Find out whether `path` is a file and report it to
    /// `after_index_check`.
    CheckIndex { path: String },
    /// Find out whether `path` is a file and report it to
    /// `after_root_index_check`.
    CheckRootIndex { path: String },
    /// Answer by serving the file at `path` for a fresh request with the
    /// incoming method and headers, adding the `Cache-Control` value if
    /// there is one.
    ServeFile { path: String, cache_control: Option<String> },
    /// Answer with the listing page of directory `dir`, reached by `url_path`.
    ListDirectory { dir: String, url_path: String },
}

/// An action as plain text.
pub enum ActionView {
    Forbidden,
    NotFound,
    TryFile { path: Seq<char>, cache_control: Option<Seq<char>> },
    ReturnServed,
    CheckDirectory { path: Seq<char> },
    CheckIndex { path: Seq<char> },
    CheckRootIndex { path: Seq<char> },
    ServeFile { path: Seq<char>, cache_control: Option<Seq<char>> },
    ListDirectory { dir: Seq<char>, url_path: Seq<char> },
}

impl View for Action {
    type V = ActionView;

    open spec fn view(&self) -> ActionView {
        match self {
            Action::Forbidden => ActionView::Forbidden,
            Action::NotFound => ActionView::NotFound,
            Action::TryFile { path, cache_control } => ActionView::TryFile {
                path: path@,
                cache_control: opt_view(*cache_control),
            },
            Action::ReturnServed => ActionView::ReturnServed,
            Action::CheckDirectory { path } => ActionView::CheckDirectory { path: path@ },
            Action::CheckIndex { path } => ActionView::CheckIndex { path: path@ },
            Action::CheckRootIndex { path } => ActionView::CheckRootIndex { path: path@ },
            Action::ServeFile { path, cache_control } => ActionView::ServeFile {
                path: path@,
                cache_control: opt_view(*cache_control),
            },
            Action::ListDirectory { dir, url_path } => ActionView::ListDirectory {
                dir: dir@,
                url_path: url_path@,
            },
        }
    }
}

/// A URL path that asks for a directory: one that ends with `/`.
pub open spec fn is_dir_request(url: Seq<char>) -> bool {
    url.len() > 0 && url.last() == '/'
}

/// The file tried first: the directory's `index.html` for a directory
/// request, else the resolved path itself.
pub open spec fn candidate_path(url: Seq<char>, fs_path: Seq<char>) -> Seq<char> {
    if is_dir_request(url) {
        join_path_spec(fs_path, "index.html"@)
    } else {
        fs_path
    }
}

/// The first decision: refuse a URL that does not resolve inside the root,
/// else try the candidate file.
pub open spec fn begin_spec(state: AppStateView, url: Seq<char>) -> (Option<RouteView>, ActionView) {
    match resolve_url(state.root, url) {
        None => (None, ActionView::Forbidden),
        Some(p) => (
            Some(RouteView { url_path: url, fs_path: p }),
            ActionView::TryFile {
                path: candidate_path(url, p),
                cache_control: state.cache_control,
            },
        ),
    }
}

/// After the candidate was tried: any answer but `404` stands, else look at
/// what the resolved path is.
pub open spec fn after_candidate_spec(route: RouteView, status: u16) -> ActionView {
    if status != 404 {
        ActionView::ReturnServed
    } else {
        ActionView::CheckDirectory { path: route.fs_path }
    }
}

/// After finding out whether the resolved path is a directory.
pub open spec fn after_directory_check_spec(
    state: AppStateView,
    route: RouteView,
    is_dir: bool,
) -> ActionView {
    if is_dir {
        if !is_dir_request(route.url_path) {
            ActionView::CheckIndex { path: join_path_spec(route.fs_path, "index.html"@) }
        } else {
            ActionView::ListDirectory { dir: route.fs_path, url_path: route.url_path }
        }
    } else if state.spa {
        ActionView::CheckRootIndex { path: join_path_spec(state.root, "index.html"@) }
    } else {
        ActionView::NotFound
    }
}

/// After finding out whether a directory reached without a trailing `/`
/// holds an `index.html` file.
pub open spec fn after_index_check_spec(
    state: AppStateView,
    route: RouteView,
    is_file: bool,
) -> ActionView {
    if is_file {
        ActionView::ServeFile {
            path: join_path_spec(route.fs_path, "index.html"@),
            cache_control: state.cache_control,
        }
    } else {
        ActionView::ListDirectory { dir: route.fs_path, url_path: route.url_path }
    }
}

/// After finding out whether the root holds an `index.html` file, in
/// single-page-app mode.
pub open spec fn after_root_index_check_spec(state: AppStateView, is_file: bool) -> ActionView {
    if is_file {
        ActionView::ServeFile {
            path: join_path_spec(state.root, "index.html"@),
            cache_control: state.cache_control,
        }
    } else {
        ActionView::NotFound
    }
}

/// The first decision for a URL that resolves to `p`: the route holds the
/// URL and `p` itself, and the file tried first is `p` for a URL that does
/// not end with `/`, and the `index.html` inside `p` for one that does,
/// served with the configured `Cache-Control` value.
pub proof fn lemma_first_try_is_resolved_path(state: AppStateView, url: Seq<char>)
    requires
        resolve_url(state.root, url) is Some,
    ensures
        ({
            let p = resolve_url(state.root, url)->0;
            let (route, action) = begin_spec(state, url);
            &&& route == Some(RouteView { url_path: url, fs_path: p })
            &&& (url.len() > 0 && url.last() == '/') ==> action == (ActionView::TryFile {
                path: join_path_spec(p, "index.html"@),
                cache_control: state.cache_control,
            })
            &&& !(url.len() > 0 && url.last() == '/') ==> action == (ActionView::TryFile {
                path: p,
                cache_control: state.cache_control,
            })
            &&& action matches ActionView::TryFile { path, .. } && p.is_prefix_of(path)
        }),
{
    let p = resolve_url(state.root, url)->0;
    let q = join_path_spec(p, "index.html"@);
    assert(p.is_prefix_of(q)) by {
        if p.len() == 0 || p.last() == '/' {
            assert(q == p + "index.html"@);
        } else {
            assert(q == p.push('/') + "index.html"@);
        }
        assert forall|i: int| 0 <= i < p.len() implies q[i] == p[i] by {}
    }
    assert(p.is_prefix_of(p));
}

/// A directory reached without a trailing `/`: the file asked about is the
/// `index.html` inside the resolved directory, and when it is a file that
/// very path is what gets served; when it is not, the directory is listed.
pub proof fn lemma_index_check_serves_what_it_checked(state: AppStateView, route: RouteView)
    requires
        !(route.url_path.len() > 0 && route.url_path.last() == '/'),
    ensures
        ({
            let index = join_path_spec(route.fs_path, "index.html"@);
            &&& after_directory_check_spec(state, route, true) == (ActionView::CheckIndex {
                path: index,
            })
            &&& after_index_check_spec(state, route, true) == (ActionView::ServeFile {
                path: index,
                cache_control: state.cache_control,
            })
            &&& after_index_check_spec(state, route, false) == (ActionView::ListDirectory {
                dir: route.fs_path,
                url_path: route.url_path,
            })
        }),
{
}

/// The `Cache-Control` value that an action puts on its answer, if any.
pub open spec fn cache_header(a: ActionView) -> Option<Seq<char>> {
    match a {
        ActionView::TryFile { cache_control, .. } => cache_control,
        ActionView::ServeFile { cache_control, .. } => cache_control,
        _ => None,
    }
}

/// An action that serves a file.
pub open spec fn serves_file(a: ActionView) -> bool {
    a is TryFile || a is ServeFile
}

/// An action that answers the request, after which nothing is left to do.
pub open spec fn is_answer(a: ActionView) -> bool {
    a is Forbidden || a is NotFound || a is ReturnServed || a is ServeFile || a is ListDirectory
}

/// What the caller finds out on disk: the status the file service answers
/// for a path, and whether a path is a directory or a file.
pub struct DiskView {
    pub status: spec_fn(Seq<char>) -> u16,
    pub is_dir: spec_fn(Seq<char>) -> bool,
    pub is_file: spec_fn(Seq<char>) -> bool,
}

/// The answer to a request for `url` against what `disk` reports: each
/// decision applied to what the previous one asked about.
pub open spec fn handle_spec(
    state: AppStateView,
    url: Seq<char>,
    disk: DiskView,
) -> ActionView {
    let (route, first) = begin_spec(state, url);
    match (route, first) {
        (Some(r), ActionView::TryFile { path, .. }) => {
            let second = after_candidate_spec(r, (disk.status)(path));
            match second {
                ActionView::CheckDirectory { path } => {
                    let third = after_directory_check_spec(state, r, (disk.is_dir)(path));
                    match third {
                        ActionView::CheckIndex { path } => after_index_check_spec(
                            state,
                            r,
                            (disk.is_file)(path),
                        ),
                        ActionView::CheckRootIndex { path } => after_root_index_check_spec(
                            state,
                            (disk.is_file)(path),
                        ),
                        _ => third,
                    }
                },
                _ => second,
            }
        },
        _ => first,
    }
}

/// The `Cache-Control` value goes on served files only, and it is always
/// the configured one: refusals, not-found answers and directory listings
/// never carry it.
pub proof fn lemma_cache_header_only_on_files(
    state: AppStateView,
    url: Seq<char>,
    route: RouteView,
    status: u16,
    flag: bool,
)
    ensures
        ({
            let a = begin_spec(state, url).1;
            cache_header(a) == if serves_file(a) { state.cache_control } else { None }
        }),
        cache_header(after_candidate_spec(route, status)) is None,
        cache_header(after_directory_check_spec(state, route, flag)) is None,
        ({
            let a = after_index_check_spec(state, route, flag);
            cache_header(a) == if serves_file(a) { state.cache_control } else { None }
        }),
        ({
            let a = after_root_index_check_spec(state, flag);
            cache_header(a) == if serves_file(a) { state.cache_control } else { None }
        }),
{
}

/// `state` with single-page-app mode set to `spa`.
pub open spec fn with_spa(state: AppStateView, spa: bool) -> AppStateView {
    AppStateView { root: state.root, spa, cache_control: state.cache_control }
}

/// Single-page-app mode changes only what a request gets whose path is
/// neither a file nor a directory: in that mode it gets the root
/// `index.html` if there is one, else, as without the mode, `404`.
pub proof fn lemma_spa_only_rewrites_missing_paths(
    state: AppStateView,
    url: Seq<char>,
    route: RouteView,
    flag: bool,
)
    ensures
        begin_spec(with_spa(state, true), url) == begin_spec(with_spa(state, false), url),
        after_directory_check_spec(with_spa(state, true), route, true)
            == after_directory_check_spec(with_spa(state, false), route, true),
        after_index_check_spec(with_spa(state, true), route, flag) == after_index_check_spec(
            with_spa(state, false),
            route,
            flag,
        ),
        after_directory_check_spec(with_spa(state, false), route, false) == ActionView::NotFound,
        after_directory_check_spec(with_spa(state, true), route, false)
            == (ActionView::CheckRootIndex { path: join_path_spec(state.root, "index.html"@) }),
        after_root_index_check_spec(with_spa(state, true), false) == ActionView::NotFound,
{
}

/// Every request is answered: after at most four decisions the handler
/// reaches an answer, whatever the file system reports.
pub proof fn lemma_every_request_is_answered(
    state: AppStateView,
    url: Seq<char>,
    disk: DiskView,
)
    ensures
        is_answer(handle_spec(state, url, disk)),
{
}

/// A URL that does not resolve inside the root is answered `403 Forbidden`
/// and nothing on disk is looked at.
pub proof fn lemma_unresolved_url_forbidden(
    state: AppStateView,
    url: Seq<char>,
    disk: DiskView,
)
    ensures
        resolve_url(state.root, url) is None <==> handle_spec(state, url, disk)
            == ActionView::Forbidden,
{
}

/// Starts handling a request for `url_path`: `Forbidden` where it does not
/// resolve inside the root, else the route and the candidate file to try.
pub fn begin(state: &AppState, url_path: &str) -> (res: (Option<Route>, Action))
    ensures
        (match res.0 {
            Some(r) => Some(r@),
            None => None::<RouteView>,
        }, res.1@) == begin_spec(state@, url_path@),
{
    match sanitize_path(state.root.as_str(), url_path) {
        None => (None, Action::Forbidden),
        Some(fs_path) => {
            let url = chars_of(url_path);
            let dir_request = url.len() > 0 && url[url.len() - 1] == '/';
            let path = if dir_request {
                join_path(fs_path.as_str(), "index.html")
            } else {
                fs_path.clone()
            };
            let cache_control = match &state.cache_control {
                Some(v) => Some(v.clone()),
                None => None,
            };
            let route = Route { url_path: String::from_str(url_path), fs_path };
            (Some(route), Action::TryFile { path, cache_control })
        },
    }
}

/// Decides what follows the candidate's answer with status `status`.
pub fn after_candidate(route: &Route, status: u16) -> (action: Action)
    ensures
        action@ == after_candidate_spec(route@, status),
{
    if status != 404 {
        Action::ReturnServed
    } else {
        Action::CheckDirectory { path: route.fs_path.clone() }
    }
}

/// Decides what follows finding out whether the resolved path is a
/// directory.
pub fn after_directory_check(state: &AppState, route: &Route, is_dir: bool) -> (action: Action)
    ensures
        action@ == after_directory_check_spec(state@, route@, is_dir),
{
    if is_dir {
        let url = chars_of(route.url_path.as_str());
        let dir_request = url.len() > 0 && url[url.len() - 1] == '/';
        if !dir_request {
            Action::CheckIndex { path: join_path(route.fs_path.as_str(), "index.html") }
        } else {
            Action::ListDirectory { dir: route.fs_path.clone(), url_path: route.url_path.clone() }
        }
    } else if state.spa {
        Action::CheckRootIndex { path: join_path(state.root.as_str(), "index.html") }
    } else {
        Action::NotFound
    }
}

/// Decides what follows finding out whether the directory's `index.html`
/// is a file.
pub fn after_index_check(state: &AppState, route: &Route, is_file: bool) -> (action: Action)
    ensures
        action@ == after_index_check_spec(state@, route@, is_file),
{
    if is_file {
        let cache_control = match &state.cache_control {
            Some(v) => Some(v.clone()),
            None => None,
        };
        Action::ServeFile { path: join_path(route.fs_path.as_str(), "index.html"), cache_control }
    } else {
        Action::ListDirectory { dir: route.fs_path.clone(), url_path: route.url_path.clone() }
    }
}

/// Decides what follows finding out whether the root's `index.html` is a
/// file.
pub fn after_root_index_check(state: &AppState, is_file: bool) -> (action: Action)
    ensures
        action@ == after_root_index_check_spec(state@, is_file),
{
    if is_file {
        let cache_control = match &state.cache_control {
            Some(v) => Some(v.clone()),
            None => None,
        };
        Action::ServeFile { path: join_path(state.root.as_str(), "index.html"), cache_control }
    } else {
        Action::NotFound
    }
}

} // verus!

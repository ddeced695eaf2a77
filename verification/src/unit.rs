//! The service file that runs an embeddings server, and the flags folio cannot
//! do without.
//!
//! folio manages no server. It prints a unit for whatever manages services on
//! the machine, and it knows the two servers it prints well enough to refuse a
//! flag belonging to the other one.

use vstd::prelude::*;

use crate::lines::{lines_view, split_on, split_on_char};
use crate::num::{parse_spec, parse_u16_range};
use crate::paths::{first_marked, first_marked_spec, join_path, join_spec};
use crate::sections::{opt_view, strings_view};
use crate::text::{
    before_any, chars_of, decimal, decimal_string, find_in, join, rfind_in, rsplit_once,
    split_once, str_of, string_of, string_of_all, until_any,
};

verus! {

/// A server `folio unit` knows how to start.
#[derive(Debug, Clone, Copy, PartialEq, Eq, Structural)]
pub enum Backend {
    LlamaCpp,
    Tei,
}

/// Why a unit was not printed.
#[derive(Debug)]
pub enum UnitError {
    NoPort { endpoint: String },
    BadPort { port: String },
    ForeignFlag { flag: String },
}

pub ghost enum UnitErrorView {
    NoPort { endpoint: Seq<char> },
    BadPort { port: Seq<char> },
    ForeignFlag { flag: Seq<char> },
}

impl View for UnitError {
    type V = UnitErrorView;

    open spec fn view(&self) -> UnitErrorView {
        match self {
            UnitError::NoPort { endpoint } => UnitErrorView::NoPort { endpoint: endpoint@ },
            UnitError::BadPort { port } => UnitErrorView::BadPort { port: port@ },
            UnitError::ForeignFlag { flag } => UnitErrorView::ForeignFlag { flag: flag@ },
        }
    }
}

pub open spec fn unit_message(e: UnitErrorView) -> Seq<char> {
    match e {
        UnitErrorView::NoPort { endpoint } => endpoint
            + " names no port, so a service cannot bind it"@,
        UnitErrorView::BadPort { port } => port + " is not a port number"@,
        UnitErrorView::ForeignFlag { flag } => flag
            + " is llama-server's and means nothing to text-embeddings-router, which reads safetensors and takes pooling from the model"@,
    }
}

impl UnitError {
    /// The refusal, in words.
    pub fn message(&self) -> (r: String)
        ensures
            r@ == unit_message(self@),
    {
        match self {
            UnitError::NoPort { endpoint } => {
                let mut r = endpoint.clone();
                r.append(" names no port, so a service cannot bind it");
                r
            },
            UnitError::BadPort { port } => {
                let mut r = port.clone();
                r.append(" is not a port number");
                r
            },
            UnitError::ForeignFlag { flag } => {
                let mut r = flag.clone();
                r.append(
                    " is llama-server's and means nothing to text-embeddings-router, which reads safetensors and takes pooling from the model",
                );
                r
            },
        }
    }
}

/// An endpoint without its scheme: what follows the first `://`, if any.
pub open spec fn after_scheme(e: Seq<char>) -> Seq<char> {
    match split_once(e, "://"@) {
        Some(p) => p.1,
        None => e,
    }
}

/// The host and port a service binds, read from the endpoint folio uses: the
/// authority's text before and after its last `:`.
pub open spec fn host_port_spec(e: Seq<char>) -> Result<(Seq<char>, nat), UnitErrorView> {
    let authority = before_any(after_scheme(e), seq!['/', '?']);
    match rsplit_once(authority, seq![':']) {
        None => Err(UnitErrorView::NoPort { endpoint: e }),
        Some(hp) => match parse_spec(hp.1, u16::MAX as nat) {
            Ok(n) => Ok((hp.0, n)),
            Err(_) => Err(UnitErrorView::BadPort { port: hp.1 }),
        },
    }
}

pub open spec fn host_port_view(r: Result<(String, u16), UnitError>) -> Result<(Seq<char>, nat), UnitErrorView> {
    match r {
        Ok(hp) => Ok((hp.0@, hp.1 as nat)),
        Err(e) => Err(e@),
    }
}

/// The host and port a service should bind, read from the endpoint.
pub fn host_port(endpoint: &str) -> (r: Result<(String, u16), UnitError>)
    ensures
        host_port_view(r) == host_port_spec(endpoint@),
{
    let s = chars_of(endpoint);
    let n = s.len();
    assert(s@.subrange(0, n as int) =~= s@);
    let sep = chars_of("://");
    let start = match find_in(&s, 0, n, &sep) {
        Some(q) => {
            assert(s@.subrange(q + sep@.len(), n as int) =~= s@.subrange(0, n as int).subrange(
                q + sep@.len(),
                n as int,
            ));
            q + sep.len()
        },
        None => 0,
    };
    assert(s@.subrange(start as int, n as int) == after_scheme(s@));
    let stops = vec!['/', '?'];
    assert(stops@ =~= seq!['/', '?']);
    let end = until_any(&s, start, n, &stops);
    let ghost authority = s@.subrange(start as int, end as int);
    let colon = vec![':'];
    assert(colon@ =~= seq![':']);
    match rfind_in(&s, start, end, &colon) {
        None => Err(UnitError::NoPort { endpoint: endpoint.to_owned() }),
        Some(q) => {
            assert(s@.subrange(start as int, q as int) =~= authority.subrange(0, q - start));
            assert(s@.subrange(q + 1, end as int) =~= authority.subrange(
                q - start + 1,
                authority.len() as int,
            ));
            match parse_u16_range(&s, q + 1, end) {
                Ok(port) => Ok((string_of(s.as_slice(), start, q), port)),
                Err(_) => Err(UnitError::BadPort { port: string_of(s.as_slice(), q + 1, end) }),
            }
        },
    }
}

/// The arguments each backend's server is started with: the flags folio's
/// own accounting rests on, then where to listen.
///
/// `--auto-truncate false` is not a preference: with TEI's default a section
/// past the model's input length comes back as a vector of its beginning, and
/// folio's budget calibration, which watches for a refusal, sees nothing.
pub open spec fn backend_args_spec(
    b: Backend,
    hf: Seq<char>,
    hf_file: Seq<char>,
    pooling: Seq<char>,
    context: nat,
    host: Seq<char>,
    port: nat,
) -> Seq<Seq<char>> {
    let c = decimal(context);
    let head = match b {
        Backend::LlamaCpp => seq![
            "--embeddings"@,
            "-hf"@,
            hf,
            "--hf-file"@,
            hf_file,
            "--pooling"@,
            pooling,
            "-c"@,
            c,
            "-b"@,
            c,
            "-ub"@,
            c,
        ],
        Backend::Tei => seq![
            "--model-id"@,
            hf,
            "--auto-truncate"@,
            "false"@,
            "--max-batch-tokens"@,
            c,
        ],
    };
    head + seq!["--host"@, host, "--port"@, decimal(port)]
}

/// The command line a backend's server needs.
pub fn backend_args(
    backend: Backend,
    hf: &str,
    hf_file: &str,
    pooling: &str,
    context: usize,
    host: String,
    port: u16,
) -> (args: Vec<String>)
    ensures
        strings_view(args@) == backend_args_spec(
            backend,
            hf@,
            hf_file@,
            pooling@,
            context as nat,
            host@,
            port as nat,
        ),
{
    let mut args: Vec<String> = Vec::new();
    match backend {
        Backend::LlamaCpp => {
            args.push(str_of("--embeddings"));
            args.push(str_of("-hf"));
            args.push(hf.to_owned());
            args.push(str_of("--hf-file"));
            args.push(hf_file.to_owned());
            args.push(str_of("--pooling"));
            args.push(pooling.to_owned());
            args.push(str_of("-c"));
            args.push(decimal_string(context));
            args.push(str_of("-b"));
            args.push(decimal_string(context));
            args.push(str_of("-ub"));
            args.push(decimal_string(context));
        },
        Backend::Tei => {
            args.push(str_of("--model-id"));
            args.push(hf.to_owned());
            args.push(str_of("--auto-truncate"));
            args.push(str_of("false"));
            args.push(str_of("--max-batch-tokens"));
            args.push(decimal_string(context));
        },
    }
    args.push(str_of("--host"));
    args.push(host);
    args.push(str_of("--port"));
    args.push(decimal_string(port as usize));
    assert(strings_view(args@) =~= backend_args_spec(
        backend,
        hf@,
        hf_file@,
        pooling@,
        context as nat,
        host@,
        port as nat,
    ));
    args
}

/// A TEI unit is refused a flag that only llama-server reads, rather than
/// printed without it.
pub open spec fn foreign_flag_spec(b: Backend, hf_file_given: bool, pooling_given: bool) -> Option<Seq<char>> {
    if b == Backend::Tei && hf_file_given {
        Some("--hf-file"@)
    } else if b == Backend::Tei && pooling_given {
        Some("--pooling"@)
    } else {
        None
    }
}

/// Refuse, rather than drop, a flag the backend does not read.
pub fn refuse_foreign_flags(backend: Backend, hf_file_given: bool, pooling_given: bool) -> (r: Result<(), UnitError>)
    ensures
        match foreign_flag_spec(backend, hf_file_given, pooling_given) {
            Some(f) => r is Err && r->Err_0@ == (UnitErrorView::ForeignFlag { flag: f }),
            None => r is Ok,
        },
{
    if backend == Backend::Tei {
        if hf_file_given {
            return Err(UnitError::ForeignFlag { flag: str_of("--hf-file") });
        }
        if pooling_given {
            return Err(UnitError::ForeignFlag { flag: str_of("--pooling") });
        }
    }
    Ok(())
}

/// The server a backend runs, and the model it serves when none is named.
pub open spec fn server_spec(b: Backend) -> (Seq<char>, Seq<char>) {
    match b {
        Backend::LlamaCpp => ("llama-server"@, "keisuke-miyako/gte-modernbert-base-gguf"@),
        Backend::Tei => ("text-embeddings-router"@, "Alibaba-NLP/gte-modernbert-base"@),
    }
}

/// The recipe a unit is printed from: the server's name, and the model, model
/// file and pooling mode, each as given or as measured by default.
pub open spec fn recipe_spec(
    b: Backend,
    hf: Option<Seq<char>>,
    hf_file: Option<Seq<char>>,
    pooling: Option<Seq<char>>,
) -> (Seq<char>, Seq<char>, Seq<char>, Seq<char>) {
    (
        server_spec(b).0,
        if hf is Some { hf->0 } else { server_spec(b).1 },
        if hf_file is Some { hf_file->0 } else { "gte-modernbert-base-Q8_0.gguf"@ },
        if pooling is Some { pooling->0 } else { "cls"@ },
    )
}

/// The server's name, model, model file and pooling a unit is printed with.
pub fn recipe(backend: Backend, hf: Option<&str>, hf_file: Option<&str>, pooling: Option<&str>) -> (r: (String, String, String, String))
    ensures
        (r.0@, r.1@, r.2@, r.3@) == recipe_spec(
            backend,
            crate::config::opt_str(hf),
            crate::config::opt_str(hf_file),
            crate::config::opt_str(pooling),
        ),
{
    let (server, model) = match backend {
        Backend::LlamaCpp => (str_of("llama-server"), str_of("keisuke-miyako/gte-modernbert-base-gguf")),
        Backend::Tei => (str_of("text-embeddings-router"), str_of("Alibaba-NLP/gte-modernbert-base")),
    };
    let model = match hf {
        Some(h) => h.to_owned(),
        None => model,
    };
    let file = match hf_file {
        Some(f) => f.to_owned(),
        None => str_of("gte-modernbert-base-Q8_0.gguf"),
    };
    let pool = match pooling {
        Some(p) => p.to_owned(),
        None => str_of("cls"),
    };
    (server, model, file, pool)
}

/// Whether the unit is a launchd property list: as asked, and otherwise the
/// platform's own manager.
pub fn use_launchd(launchd: bool, systemd: bool, on_macos: bool) -> (b: bool)
    ensures
        b == (if launchd || systemd {
            launchd
        } else {
            on_macos
        }),
{
    if launchd || systemd {
        launchd
    } else {
        on_macos
    }
}

/// One `<string>` line per argument of a property list.
pub open spec fn plist_args(args: Seq<Seq<char>>) -> Seq<char>
    decreases args.len(),
{
    if args.len() == 0 {
        Seq::empty()
    } else {
        plist_args(args.drop_last()) + "    <string>"@ + args.last() + "</string>\n"@
    }
}

pub open spec fn plist_spec(endpoint: Seq<char>, server_name: Seq<char>, argv: Seq<char>) -> Seq<char> {
    "<?xml version=\"1.0\" encoding=\"UTF-8\"?>\n<!DOCTYPE plist PUBLIC \"-//Apple//DTD PLIST 1.0//EN\" \"http://www.apple.com/DTDs/PropertyList-1.0.dtd\">\n<!-- Serves "@
        + endpoint
        + " for folio. It runs from login until you unload it;\n     "@
        + server_name
        + " cannot be started on demand, because it binds its own socket\n     rather than accepting one from launchd. It is not free while idle:\n     docs/measurements/ in the folio repository carries what it costs. -->\n<plist version=\"1.0\">\n<dict>\n  <key>Label</key><string>dev.folio.embeddings</string>\n  <key>ProgramArguments</key>\n  <array>\n"@
        + argv
        + "  </array>\n  <key>RunAtLoad</key><true/>\n  <key>KeepAlive</key><true/>\n  <key>StandardOutPath</key><string>/tmp/folio-embeddings.log</string>\n  <key>StandardErrorPath</key><string>/tmp/folio-embeddings.log</string>\n</dict>\n</plist>\n"@
}

pub open spec fn systemd_spec(endpoint: Seq<char>, server_name: Seq<char>, server: Seq<char>, argv: Seq<char>) -> Seq<char> {
    "# Serves "@ + endpoint
        + " for folio. It runs from login until you stop it;\n# "@
        + server_name
        + " cannot be socket-activated, because it binds its own\n# socket rather than accepting one from systemd. It is not free while\n# idle: docs/measurements/ in the folio repository carries the cost.\n[Unit]\nDescription=Embeddings endpoint for folio\nAfter=network.target\n\n[Service]\nExecStart="@
        + server + " "@ + argv
        + "\nRestart=on-failure\n\n[Install]\nWantedBy=default.target\n"@
}

/// The text of a service file: a launchd property list that starts `server`
/// with `args`, or a systemd unit that does.
pub open spec fn unit_text_spec(
    launchd: bool,
    endpoint: Seq<char>,
    server_name: Seq<char>,
    server: Seq<char>,
    args: Seq<Seq<char>>,
) -> Seq<char> {
    if launchd {
        plist_spec(endpoint, server_name, plist_args(seq![server] + args))
    } else {
        systemd_spec(endpoint, server_name, server, join(args, " "@))
    }
}

fn append_plist_args(out: &mut String, args: &Vec<String>)
    ensures
        final(out)@ == old(out)@ + plist_args(strings_view(args@)),
{
    let ghost o = out@;
    let mut k: usize = 0;
    assert(strings_view(args@).subrange(0, 0) =~= Seq::<Seq<char>>::empty());
    while k < args.len()
        invariant
            k <= args@.len(),
            out@ == o + plist_args(strings_view(args@).subrange(0, k as int)),
        decreases args@.len() - k,
    {
        out.append("    <string>");
        out.append(args[k].as_str());
        out.append("</string>\n");
        proof {
            let p = strings_view(args@).subrange(0, k + 1);
            assert(p.drop_last() =~= strings_view(args@).subrange(0, k as int));
            assert(p.last() == args@[k as int]@);
        }
        k = k + 1;
    }
    assert(strings_view(args@).subrange(0, args@.len() as int) =~= strings_view(args@));
}

fn join_spaced(args: &Vec<String>) -> (r: String)
    ensures
        r@ == join(strings_view(args@), " "@),
{
    let mut r = String::new();
    let mut k: usize = 0;
    assert(strings_view(args@).subrange(0, 0) =~= Seq::<Seq<char>>::empty());
    while k < args.len()
        invariant
            k <= args@.len(),
            r@ == join(strings_view(args@).subrange(0, k as int), " "@),
        decreases args@.len() - k,
    {
        let ghost before = r@;
        if k > 0 {
            r.append(" ");
        }
        r.append(args[k].as_str());
        proof {
            let p = strings_view(args@).subrange(0, k + 1);
            assert(p.drop_last() =~= strings_view(args@).subrange(0, k as int));
            assert(p.last() == args@[k as int]@);
            if k == 0 {
                assert(p.len() == 1);
                assert(before == Seq::<char>::empty());
                assert(r@ =~= p[0]);
            }
        }
        k = k + 1;
    }
    assert(strings_view(args@).subrange(0, args@.len() as int) =~= strings_view(args@));
    r
}

/// The service file, as text.
pub fn unit_text(launchd: bool, endpoint: &str, server_name: &str, server: &String, args: &Vec<String>) -> (r: String)
    ensures
        r@ == unit_text_spec(launchd, endpoint@, server_name@, server@, strings_view(args@)),
{
    if launchd {
        let mut all: Vec<String> = Vec::new();
        all.push(server.clone());
        let mut k: usize = 0;
        while k < args.len()
            invariant
                k <= args@.len(),
                strings_view(all@) == seq![server@] + strings_view(args@).subrange(0, k as int),
            decreases args@.len() - k,
        {
            let ghost prev = all@;
            let a = args[k].clone();
            all.push(a);
            proof {
                assert(all@ =~= prev.push(args@[k as int]));
                assert(strings_view(all@) =~= strings_view(prev).push(args@[k as int]@));
                assert(strings_view(all@) =~= seq![server@] + strings_view(args@).subrange(
                    0,
                    k + 1,
                ));
            }
            k = k + 1;
        }
        assert(strings_view(args@).subrange(0, args@.len() as int) =~= strings_view(args@));
        let mut r = str_of(
            "<?xml version=\"1.0\" encoding=\"UTF-8\"?>\n<!DOCTYPE plist PUBLIC \"-//Apple//DTD PLIST 1.0//EN\" \"http://www.apple.com/DTDs/PropertyList-1.0.dtd\">\n<!-- Serves ",
        );
        r.append(endpoint);
        r.append(" for folio. It runs from login until you unload it;\n     ");
        r.append(server_name);
        r.append(
            " cannot be started on demand, because it binds its own socket\n     rather than accepting one from launchd. It is not free while idle:\n     docs/measurements/ in the folio repository carries what it costs. -->\n<plist version=\"1.0\">\n<dict>\n  <key>Label</key><string>dev.folio.embeddings</string>\n  <key>ProgramArguments</key>\n  <array>\n",
        );
        append_plist_args(&mut r, &all);
        r.append(
            "  </array>\n  <key>RunAtLoad</key><true/>\n  <key>KeepAlive</key><true/>\n  <key>StandardOutPath</key><string>/tmp/folio-embeddings.log</string>\n  <key>StandardErrorPath</key><string>/tmp/folio-embeddings.log</string>\n</dict>\n</plist>\n",
        );
        r
    } else {
        let argv = join_spaced(args);
        let mut r = str_of("# Serves ");
        r.append(endpoint);
        r.append(" for folio. It runs from login until you stop it;\n# ");
        r.append(server_name);
        r.append(
            " cannot be socket-activated, because it binds its own\n# socket rather than accepting one from systemd. It is not free while\n# idle: docs/measurements/ in the folio repository carries the cost.\n[Unit]\nDescription=Embeddings endpoint for folio\nAfter=network.target\n\n[Service]\nExecStart=",
        );
        r.append(server.as_str());
        r.append(" ");
        r.append(argv.as_str());
        r.append("\nRestart=on-failure\n\n[Install]\nWantedBy=default.target\n");
        r
    }
}

/// `Path::is_file`. What is on disk decides, so nothing is promised of it.
#[verifier::external_body]
fn is_file_on_disk(path: &str) -> (r: bool) {
    std::path::Path::new(path).is_file()
}

/// Where the server would stand in each directory of the search path.
pub open spec fn server_candidates(path_var: Seq<char>, name: Seq<char>) -> Seq<Seq<char>> {
    split_on(path_var, ':').map_values(|d: Seq<char>| join_spec(d, name))
}

/// The server's absolute path: the first directory of the search path
/// `path_var` (the value of `PATH`) that holds a file of that name.
///
/// Which candidates are files is the filesystem's answer; `marks` stands for
/// those answers, in search-path order, as far as the search asked.
pub fn which_server(path_var: &str, name: &str) -> (r: Option<String>)
    ensures
        exists|marks: Seq<bool>|
            opt_view(r) == first_marked_spec(server_candidates(path_var@, name@), marks),
{
    let pv = chars_of(path_var);
    let dirs = split_on_char(&pv, ':');
    let mut cands: Vec<String> = Vec::new();
    let mut k: usize = 0;
    while k < dirs.len()
        invariant
            k <= dirs@.len(),
            lines_view(dirs@) == split_on(path_var@, ':'),
            strings_view(cands@) == lines_view(dirs@).subrange(0, k as int).map_values(
                |d: Seq<char>| join_spec(d, name@),
            ),
        decreases dirs@.len() - k,
    {
        let dir = string_of_all(&dirs[k]);
        let candidate = join_path(dir.as_str(), name);
        let ghost before = strings_view(cands@);
        cands.push(candidate);
        proof {
            assert(lines_view(dirs@)[k as int] == dirs@[k as int]@);
            assert(strings_view(cands@) =~= before.push(candidate@));
            assert(lines_view(dirs@).subrange(0, k + 1) =~= lines_view(dirs@).subrange(0, k as int).push(dirs@[k as int]@));
            assert(lines_view(dirs@).subrange(0, k + 1).map_values(|d: Seq<char>| join_spec(d, name@))
                =~= lines_view(dirs@).subrange(0, k as int).map_values(|d: Seq<char>| join_spec(d, name@)).push(join_spec(dirs@[k as int]@, name@)));
        }
        k = k + 1;
    }
    assert(lines_view(dirs@).subrange(0, dirs@.len() as int) =~= lines_view(dirs@));
    let mut marks: Vec<bool> = Vec::new();
    let mut found = false;
    let mut j: usize = 0;
    while j < cands.len() && !found
        invariant
            j <= cands@.len(),
        decreases cands@.len() - j,
    {
        found = is_file_on_disk(cands[j].as_str());
        marks.push(found);
        j = j + 1;
    }
    let r = first_marked(&cands, &marks);
    assert(opt_view(r) == first_marked_spec(server_candidates(path_var@, name@), marks@));
    r
}

} // verus!

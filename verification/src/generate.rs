//! The decisions of code generation that do not depend on the generators:
//! which options are accepted, the options handed to a generator, and the
//! languages of the interop bindings.

use vstd::prelude::*;
use crate::args::{Alloc, Cli, Lang};
use crate::text::{lemma_split_on_join, same_text, split_on, trim, trim_str};

verus! {

/// The message that refuses `--no-std` for a language other than Rust.
pub open spec fn no_std_message() -> Seq<char> {
    "--no-std is only valid with --lang rust"@
}

/// Accepts the command line for generation unless it asks for `--no-std`
/// with a language other than Rust.
pub fn check_target(cli: &Cli) -> (r: Result<(), String>)
    ensures
        r is Err <==> (cli.no_std && cli.lang != Lang::Rust),
        r matches Err(m) ==> m@ == no_std_message(),
{
    let rust = match cli.lang {
        Lang::Rust => true,
        _ => false,
    };
    if cli.no_std && !rust {
        Err(String::from_str("--no-std is only valid with --lang rust"))
    } else {
        Ok(())
    }
}

/// Wire format of the generated code.
#[derive(Debug, Clone, Copy, PartialEq, Eq, Structural)]
pub enum Format {
    Cbor,
    Json,
}

/// The options handed to a code generator.
pub struct CodegenOptions {
    pub lang: Lang,
    pub format: Format,
    pub runtime: String,
    pub alloc: Alloc,
    pub dcbor: bool,
    pub no_std: bool,
    pub depth_limit: usize,
    pub namespace: Option<String>,
    pub max_array: usize,
    pub max_str: usize,
}

fn copy_option(o: &Option<String>) -> (r: Option<String>)
    ensures
        r is Some <==> o is Some,
        r is Some ==> r->0@ == o->0@,
{
    match o {
        Some(s) => Some(s.clone()),
        None => None,
    }
}

impl Cli {
    /// The generator options of this command line: its language, runtime,
    /// allocation strategy, dCBOR and no-std flags, depth limit, namespace
    /// and default capacities, with the CBOR wire format.
    pub fn codegen_options(&self) -> (o: CodegenOptions)
        ensures
            o.lang == self.lang,
            o.format == Format::Cbor,
            o.runtime@ == self.runtime@,
            o.alloc == self.alloc,
            o.dcbor == self.dcbor,
            o.no_std == self.no_std,
            o.depth_limit == self.depth_limit,
            o.namespace is Some <==> self.namespace is Some,
            o.namespace is Some ==> o.namespace->0@ == self.namespace->0@,
            o.max_array == self.max_array,
            o.max_str == self.max_str,
    {
        CodegenOptions {
            lang: self.lang,
            format: Format::Cbor,
            runtime: self.runtime.clone(),
            alloc: self.alloc,
            dcbor: self.dcbor,
            no_std: self.no_std,
            depth_limit: self.depth_limit,
            namespace: copy_option(&self.namespace),
            max_array: self.max_array,
            max_str: self.max_str,
        }
    }
}

/// The languages to emit interop bindings for.
#[derive(Debug, Clone, Copy, PartialEq, Eq, Structural)]
pub struct InteropLangs {
    pub rust: bool,
    pub c: bool,
    pub cpp: bool,
    pub csharp: bool,
    pub nodejs: bool,
    pub python: bool,
}

/// Some piece of `pieces`, once trimmed, is `name`.
pub open spec fn names(pieces: Seq<Seq<char>>, name: Seq<char>) -> bool {
    exists|k: int| 0 <= k < pieces.len() && trim(#[trigger] pieces[k]) == name
}

/// The languages named in a comma-separated list: each name, trimmed of
/// white space, that is one of `rust`, `c`, `cpp`, `csharp`, `nodejs`,
/// `python`; other names are ignored.
pub open spec fn interop_langs_of(s: Seq<char>) -> InteropLangs {
    let pieces = split_on(s, ',');
    InteropLangs {
        rust: names(pieces, "rust"@),
        c: names(pieces, "c"@),
        cpp: names(pieces, "cpp"@),
        csharp: names(pieces, "csharp"@),
        nodejs: names(pieces, "nodejs"@),
        python: names(pieces, "python"@),
    }
}

fn mark(langs: &mut InteropLangs, piece: &str)
    ensures
        final(langs).rust == (old(langs).rust || trim(piece@) == "rust"@),
        final(langs).c == (old(langs).c || trim(piece@) == "c"@),
        final(langs).cpp == (old(langs).cpp || trim(piece@) == "cpp"@),
        final(langs).csharp == (old(langs).csharp || trim(piece@) == "csharp"@),
        final(langs).nodejs == (old(langs).nodejs || trim(piece@) == "nodejs"@),
        final(langs).python == (old(langs).python || trim(piece@) == "python"@),
{
    let t = trim_str(piece);
    if same_text(t, "rust") {
        langs.rust = true;
    }
    if same_text(t, "c") {
        langs.c = true;
    }
    if same_text(t, "cpp") {
        langs.cpp = true;
    }
    if same_text(t, "csharp") {
        langs.csharp = true;
    }
    if same_text(t, "nodejs") {
        langs.nodejs = true;
    }
    if same_text(t, "python") {
        langs.python = true;
    }
}

/// Reads the comma-separated list of interop languages.
pub fn parse_interop_langs(s: &str) -> (langs: InteropLangs)
    ensures
        langs == interop_langs_of(s@),
{
    let n = s.unicode_len();
    let mut langs = InteropLangs {
        rust: false,
        c: false,
        cpp: false,
        csharp: false,
        nodejs: false,
        python: false,
    };
    let mut start: usize = 0;
    let mut i: usize = 0;
    let ghost mut done: Seq<Seq<char>> = Seq::empty();
    assert(s@.take(0) =~= Seq::<char>::empty());
    assert(s@.subrange(0, 0) =~= Seq::<char>::empty());
    assert(split_on(s@.take(0), ',') =~= done.push(s@.subrange(0, 0)));
    while i < n
        invariant
            n == s@.len(),
            start <= i <= n,
            split_on(s@.take(i as int), ',') == done.push(s@.subrange(start as int, i as int)),
            langs == (InteropLangs {
                rust: names(done, "rust"@),
                c: names(done, "c"@),
                cpp: names(done, "cpp"@),
                csharp: names(done, "csharp"@),
                nodejs: names(done, "nodejs"@),
                python: names(done, "python"@),
            }),
        decreases n - i,
    {
        let c = s.get_char(i);
        proof {
            assert(s@.take(i + 1).drop_last() =~= s@.take(i as int));
            assert(s@.take(i + 1).last() == c);
        }
        if c == ',' {
            let piece = s.substring_char(start, i);
            mark(&mut langs, piece);
            proof {
                let old_done = done;
                done = done.push(piece@);
                assert(s@.subrange(i + 1, i + 1) =~= Seq::<char>::empty());
                assert(split_on(s@.take(i + 1), ',') =~= done.push(s@.subrange(i + 1, i + 1)));
                lemma_names_push(old_done, piece@);
            }
            start = i + 1;
        } else {
            proof {
                assert(s@.subrange(start as int, i + 1) =~= s@.subrange(start as int, i as int).push(c));
                let p = split_on(s@.take(i as int), ',');
                assert(p.update(p.len() - 1, p.last().push(c)) =~= done.push(
                    s@.subrange(start as int, i + 1),
                ));
            }
        }
        i = i + 1;
    }
    let piece = s.substring_char(start, n);
    mark(&mut langs, piece);
    proof {
        lemma_names_push(done, piece@);
        assert(s@.take(n as int) =~= s@);
    }
    langs
}

/// The languages of one list, a comma and another list are those of either
/// list: the order of the names and repeating a name do not matter.
pub proof fn law_interop_join(a: Seq<char>, b: Seq<char>)
    ensures
        ({
            let l = interop_langs_of(a + seq![','] + b);
            let x = interop_langs_of(a);
            let y = interop_langs_of(b);
            &&& l.rust == (x.rust || y.rust)
            &&& l.c == (x.c || y.c)
            &&& l.cpp == (x.cpp || y.cpp)
            &&& l.csharp == (x.csharp || y.csharp)
            &&& l.nodejs == (x.nodejs || y.nodejs)
            &&& l.python == (x.python || y.python)
        }),
{
    lemma_split_on_join(a, b, ',');
    let pa = split_on(a, ',');
    let pb = split_on(b, ',');
    assert forall|name: Seq<char>| #[trigger] names(pa + pb, name) == (names(pa, name) || names(pb, name)) by {
        if names(pa + pb, name) {
            let k = choose|k: int| 0 <= k < (pa + pb).len() && trim(#[trigger] (pa + pb)[k]) == name;
            if k < pa.len() {
                assert(pa[k] == (pa + pb)[k]);
            } else {
                assert(pb[k - pa.len()] == (pa + pb)[k]);
            }
        }
        if names(pa, name) {
            let k = choose|k: int| 0 <= k < pa.len() && trim(#[trigger] pa[k]) == name;
            assert((pa + pb)[k] == pa[k]);
        }
        if names(pb, name) {
            let k = choose|k: int| 0 <= k < pb.len() && trim(#[trigger] pb[k]) == name;
            assert((pa + pb)[k + pa.len()] == pb[k]);
        }
    }
    assert(names(pa + pb, "rust"@) == (names(pa, "rust"@) || names(pb, "rust"@)));
    assert(names(pa + pb, "c"@) == (names(pa, "c"@) || names(pb, "c"@)));
    assert(names(pa + pb, "cpp"@) == (names(pa, "cpp"@) || names(pb, "cpp"@)));
    assert(names(pa + pb, "csharp"@) == (names(pa, "csharp"@) || names(pb, "csharp"@)));
    assert(names(pa + pb, "nodejs"@) == (names(pa, "nodejs"@) || names(pb, "nodejs"@)));
    assert(names(pa + pb, "python"@) == (names(pa, "python"@) || names(pb, "python"@)));
}

proof fn lemma_names_push(done: Seq<Seq<char>>, p: Seq<char>)
    ensures
        forall|name: Seq<char>| #[trigger] names(done.push(p), name) == (names(done, name) || trim(p) == name),
{
    assert forall|name: Seq<char>| #[trigger] names(done.push(p), name) == (names(done, name) || trim(p) == name) by {
        if names(done, name) {
            let k = choose|k: int| 0 <= k < done.len() && trim(#[trigger] done[k]) == name;
            assert(done.push(p)[k] == done[k]);
        }
        if trim(p) == name {
            assert(done.push(p)[done.len() as int] == p);
        }
        if names(done.push(p), name) {
            let k = choose|k: int| 0 <= k < done.len() + 1 && trim(#[trigger] done.push(p)[k]) == name;
            if k < done.len() {
                assert(done.push(p)[k] == done[k]);
            }
        }
    }
}

} // verus!

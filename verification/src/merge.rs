//! Merging the modules loaded from several entry files into one.

use vstd::prelude::*;
use crate::loader::{CddlModule, LoadedModule, Pragma};
use crate::text::{same_text, views};

verus! {

/// The pragmas among `ps` whose keyword is `import`, in order.
pub open spec fn import_pragmas<V>(ps: Seq<Pragma<V>>) -> Seq<Pragma<V>>
    decreases ps.len(),
{
    if ps.len() == 0 {
        Seq::empty()
    } else if ps.last().keyword@ == "import"@ {
        import_pragmas(ps.drop_last()).push(ps.last())
    } else {
        import_pragmas(ps.drop_last())
    }
}

/// The rules of all the modules, module by module.
pub open spec fn all_rules<V, R>(ms: Seq<LoadedModule<V, R>>) -> Seq<R>
    decreases ms.len(),
{
    if ms.len() == 0 {
        Seq::empty()
    } else {
        all_rules(ms.drop_last()) + ms.last().module.rules@
    }
}

/// The warnings of all the modules, module by module.
pub open spec fn all_warnings<V, R>(ms: Seq<LoadedModule<V, R>>) -> Seq<Seq<char>>
    decreases ms.len(),
{
    if ms.len() == 0 {
        Seq::empty()
    } else {
        all_warnings(ms.drop_last()) + views(ms.last().warnings@)
    }
}

/// The rules of each module, module by module.
pub open spec fn rules_by_module<V, R>(ms: Seq<LoadedModule<V, R>>) -> Seq<Seq<R>> {
    ms.map_values(|m: LoadedModule<V, R>| m.module.rules@)
}

/// The warnings of each module, module by module.
pub open spec fn warnings_by_module<V, R>(ms: Seq<LoadedModule<V, R>>) -> Seq<Seq<Seq<char>>> {
    ms.map_values(|m: LoadedModule<V, R>| views(m.warnings@))
}

/// The rules of all the modules are the rules of every module, each
/// module's as one block, in the order of the modules, none dropped or
/// repeated; likewise the warnings.
pub proof fn law_all_rules_flatten<V, R>(ms: Seq<LoadedModule<V, R>>)
    ensures
        all_rules(ms) == rules_by_module(ms).flatten(),
        all_warnings(ms) == warnings_by_module(ms).flatten(),
    decreases ms.len(),
{
    rules_by_module(ms).lemma_flatten_and_flatten_alt_are_equivalent();
    warnings_by_module(ms).lemma_flatten_and_flatten_alt_are_equivalent();
    if ms.len() > 0 {
        law_all_rules_flatten(ms.drop_last());
        assert(rules_by_module(ms).drop_last() =~= rules_by_module(ms.drop_last()));
        assert(warnings_by_module(ms).drop_last() =~= warnings_by_module(ms.drop_last()));
        rules_by_module(ms.drop_last()).lemma_flatten_and_flatten_alt_are_equivalent();
        warnings_by_module(ms.drop_last()).lemma_flatten_and_flatten_alt_are_equivalent();
    } else {
        assert(rules_by_module(ms).flatten_alt() =~= Seq::<R>::empty());
        assert(warnings_by_module(ms).flatten_alt() =~= Seq::<Seq<char>>::empty());
    }
}

/// Merging the modules of two runs of entry files one after the other
/// gives the rules, and the warnings, of the first then of the second.
pub proof fn law_all_rules_append<V, R>(ms1: Seq<LoadedModule<V, R>>, ms2: Seq<LoadedModule<V, R>>)
    ensures
        all_rules(ms1 + ms2) == all_rules(ms1) + all_rules(ms2),
        all_warnings(ms1 + ms2) == all_warnings(ms1) + all_warnings(ms2),
    decreases ms2.len(),
{
    if ms2.len() == 0 {
        assert(ms1 + ms2 =~= ms1);
    } else {
        law_all_rules_append(ms1, ms2.drop_last());
        assert((ms1 + ms2).drop_last() =~= ms1 + ms2.drop_last());
        assert((ms1 + ms2).last() == ms2.last());
    }
}

/// The pragmas of the merged module: all those of the first module, then
/// the `import` pragmas of each other module.
pub open spec fn merged_pragmas<V, R>(ms: Seq<LoadedModule<V, R>>) -> Seq<Pragma<V>>
    decreases ms.len(),
{
    if ms.len() == 0 {
        Seq::empty()
    } else if ms.len() == 1 {
        ms[0].module.file_pragmas@
    } else {
        merged_pragmas(ms.drop_last()) + import_pragmas(ms.last().module.file_pragmas@)
    }
}

/// The source path of the merged module: the first module's, or
/// `module.cddl` when there is none.
pub open spec fn merged_path<V, R>(ms: Seq<LoadedModule<V, R>>) -> Seq<char> {
    if ms.len() == 0 {
        "module.cddl"@
    } else {
        ms[0].module.source_path@
    }
}

fn import_only<V>(ps: Vec<Pragma<V>>) -> (r: Vec<Pragma<V>>)
    ensures
        r@ == import_pragmas(ps@),
{
    let ghost orig = ps@;
    let mut ps = ps;
    let mut r: Vec<Pragma<V>> = Vec::new();
    let mut i: usize = 0;
    let n = ps.len();
    while ps.len() > 0
        invariant
            n == orig.len(),
            i <= n,
            ps@ == orig.skip(i as int),
            r@ == import_pragmas(orig.take(i as int)),
        decreases ps.len(),
    {
        let p = ps.remove(0);
        proof {
            assert(orig.take(i + 1).drop_last() =~= orig.take(i as int));
            assert(orig.take(i + 1).last() == p);
            assert(ps@ =~= orig.skip(i + 1));
        }
        if same_text(p.keyword.as_str(), "import") {
            r.push(p);
        }
        i = i + 1;
    }
    assert(orig.take(n as int) =~= orig);
    r
}

/// Merges the modules loaded from the entry files, in order: the merged
/// module has the first module's source path (`module.cddl` when there is
/// none) and all its pragmas, then the `import` pragmas of the others; the
/// rules of all modules in order; and the warnings of all of them.
pub fn merge_loaded<V, R>(loaded: Vec<LoadedModule<V, R>>) -> (m: LoadedModule<V, R>)
    ensures
        m.module.source_path@ == merged_path(loaded@),
        m.module.file_pragmas@ == merged_pragmas(loaded@),
        m.module.rules@ == all_rules(loaded@),
        views(m.warnings@) == all_warnings(loaded@),
        m.module.rules@ == rules_by_module(loaded@).flatten(),
        views(m.warnings@) == warnings_by_module(loaded@).flatten(),
{
    let ghost orig = loaded@;
    let n = loaded.len();
    let mut loaded = loaded;
    let mut path = String::from_str("module.cddl");
    let mut pragmas: Vec<Pragma<V>> = Vec::new();
    let mut rules: Vec<R> = Vec::new();
    let mut warnings: Vec<String> = Vec::new();
    let mut i: usize = 0;
    while loaded.len() > 0
        invariant
            n == orig.len(),
            i <= n,
            loaded@ == orig.skip(i as int),
            path@ == merged_path(orig.take(i as int)),
            pragmas@ == merged_pragmas(orig.take(i as int)),
            rules@ == all_rules(orig.take(i as int)),
            views(warnings@) == all_warnings(orig.take(i as int)),
        decreases loaded.len(),
    {
        let lm = loaded.remove(0);
        let ghost pre = orig.take(i as int);
        let ghost now = orig.take(i + 1);
        proof {
            assert(now.drop_last() =~= pre);
            assert(now.last() == lm);
            assert(loaded@ =~= orig.skip(i + 1));
        }
        let LoadedModule { module, warnings: mut ws } = lm;
        let CddlModule { source_path, file_pragmas, rules: mut rs } = module;
        let ghost ws0 = warnings@;
        let ghost wsv = ws@;
        if i == 0 {
            path = source_path;
            pragmas = file_pragmas;
            proof {
                assert(now =~= seq![lm]);
            }
        } else {
            let mut extra = import_only(file_pragmas);
            pragmas.append(&mut extra);
        }
        rules.append(&mut rs);
        warnings.append(&mut ws);
        proof {
            assert(views(warnings@) =~= views(ws0) + views(wsv));
            if i > 0 {
                assert(now[0] == pre[0]);
            }
        }
        i = i + 1;
    }
    assert(orig.take(n as int) =~= orig);
    proof {
        law_all_rules_flatten(orig);
    }
    LoadedModule {
        module: CddlModule { source_path: path, file_pragmas: pragmas, rules },
        warnings,
    }
}

} // verus!

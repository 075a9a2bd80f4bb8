//! What comes of the whole way through the imports of a world.
//!
//! A [`Polyfill`](crate::polyfill::Polyfill) goes through the imports step by step. Here the steps
//! are put together: what is defined in the linker on the whole way, and which resource types have
//! which indices at its end.
use vstd::prelude::*;

use crate::polyfill::{
    every_step_is_taken, function_steps, import_from, import_steps, is_before, is_own_resource,
    is_polyfilled, is_step, left_of_import, lemma_next_is_step, next_paths, next_step,
    nothing_is_passed_over, position, resource_key, resource_steps, steps_from, steps_go_forward,
    DynamicResourceType, Import, ImportItem, Polyfill, ResourcePaths, Step, TypeKind,
};

verus! {

/// What is defined in the linker, by its names.
pub enum Definition {
    Instance(Seq<char>),
    /// A function, after its instance.
    Function(Seq<char>, Seq<char>),
    /// A resource, after its instance.
    Resource(Seq<char>, Seq<char>),
    Nothing,
}

/// A definition, and the index that a resource type has by it.
pub struct Call {
    pub definition: Definition,
    pub entry: Option<((Seq<char>, Seq<char>), u32)>,
}

/// What is defined in a step.
pub open spec fn definition(imports: Seq<Import>, step: Step) -> Definition {
    match step {
        Step::Instance(i) => Definition::Instance(imports[i as int].name@),
        Step::Function(i, k) => Definition::Function(
            imports[i as int].name@,
            imports[i as int].item->Interface_0.functions@[k as int]@,
        ),
        Step::Resource(i, k) => Definition::Resource(
            imports[i as int].name@,
            imports[i as int].item->Interface_0.types@[k as int].name@,
        ),
        Step::Finished => Definition::Nothing,
    }
}

/// The index that comes of a step, where `index` says what comes of each resource.
pub open spec fn index_of(index: spec_fn(int, int) -> Option<u32>, step: Step) -> Option<u32> {
    match step {
        Step::Resource(i, k) => index(i as int, k as int),
        _ => None,
    }
}

/// What is defined in a step, with the index that comes of it.
pub open spec fn call(
    imports: Seq<Import>,
    index: spec_fn(int, int) -> Option<u32>,
    step: Step,
) -> Call {
    Call {
        definition: definition(imports, step),
        entry: match (step, index_of(index, step)) {
            (Step::Resource(i, k), Some(index)) => Some(
                (resource_key(imports, i as int, k as int), index),
            ),
            _ => None,
        },
    }
}

/// What is defined in each step.
pub open spec fn calls(
    imports: Seq<Import>,
    index: spec_fn(int, int) -> Option<u32>,
    steps: Seq<Step>,
) -> Seq<Call> {
    Seq::new(steps.len(), |j: int| call(imports, index, steps[j]))
}

/// The indices with the one that comes of a call, in place of any that its type had.
pub open spec fn with_entry(paths: Map<(Seq<char>, Seq<char>), u32>, call: Call) -> Map<
    (Seq<char>, Seq<char>),
    u32,
> {
    match call.entry {
        Some((key, index)) => paths.insert(key, index),
        None => paths,
    }
}

/// The indices with those that come of the calls, one call after the other.
pub open spec fn collected(
    calls: Seq<Call>,
    paths: Map<(Seq<char>, Seq<char>), u32>,
) -> Map<(Seq<char>, Seq<char>), u32>
    decreases calls.len(),
{
    if calls.len() == 0 {
        paths
    } else {
        with_entry(collected(calls.drop_last(), paths), calls.last())
    }
}

/// The indices at the end of the way from a step on, where `defined` says which instances can be
/// defined and `index` what comes of each resource.
pub open spec fn paths_from(
    imports: Seq<Import>,
    defined: spec_fn(int) -> bool,
    index: spec_fn(int, int) -> Option<u32>,
    step: Step,
    paths: Map<(Seq<char>, Seq<char>), u32>,
) -> Map<(Seq<char>, Seq<char>), u32>
    decreases
            imports.len() - position(imports, step).0,
            left_of_import(imports, step).0,
            left_of_import(imports, step).1,
    when imports.len() <= usize::MAX && is_step(imports, step)
{
    proof {
        steps_go_forward(imports, step, defined(position(imports, step).0));
        lemma_next_is_step(imports, step, defined(position(imports, step).0));
    }
    if step is Finished {
        paths
    } else {
        paths_from(
            imports,
            defined,
            index,
            next_step(imports, step, defined(position(imports, step).0)),
            next_paths(imports, step, index_of(index, step), paths),
        )
    }
}

proof fn lemma_collected_first(
    first: Call,
    rest: Seq<Call>,
    paths: Map<(Seq<char>, Seq<char>), u32>,
)
    ensures
        collected(seq![first] + rest, paths) == collected(rest, with_entry(paths, first)),
    decreases rest.len(),
{
    let all = seq![first] + rest;
    if rest.len() == 0 {
        assert(all.drop_last() =~= Seq::empty());
        assert(collected(Seq::<Call>::empty(), paths) == paths);
    } else {
        assert(all.drop_last() =~= seq![first] + rest.drop_last());
        lemma_collected_first(first, rest.drop_last(), paths);
    }
}

proof fn lemma_paths_from(
    imports: Seq<Import>,
    defined: spec_fn(int) -> bool,
    index: spec_fn(int, int) -> Option<u32>,
    step: Step,
    paths: Map<(Seq<char>, Seq<char>), u32>,
)
    requires
        imports.len() <= usize::MAX,
        is_step(imports, step),
    ensures
        paths_from(imports, defined, index, step, paths) == collected(
            calls(imports, index, steps_from(imports, defined, step)),
            paths,
        ),
    decreases
            imports.len() - position(imports, step).0,
            left_of_import(imports, step).0,
            left_of_import(imports, step).1,
{
    let steps = steps_from(imports, defined, step);
    if !(step is Finished) {
        let next = next_step(imports, step, defined(position(imports, step).0));
        let more = next_paths(imports, step, index_of(index, step), paths);
        steps_go_forward(imports, step, defined(position(imports, step).0));
        lemma_next_is_step(imports, step, defined(position(imports, step).0));
        lemma_paths_from(imports, defined, index, next, more);
        let rest = steps_from(imports, defined, next);
        let first = call(imports, index, step);
        assert(steps == seq![step] + rest);
        assert(calls(imports, index, steps) =~= seq![first] + calls(imports, index, rest));
        lemma_collected_first(first, calls(imports, index, rest), paths);
        assert(with_entry(paths, first) == more);
    }
}

/// Whether a call gives the resource type of the key an index.
pub open spec fn gives_index(call: Call, key: (Seq<char>, Seq<char>)) -> bool {
    call.entry matches Some(entry) && entry.0 == key
}

proof fn lemma_collected_keys(calls: Seq<Call>, key: (Seq<char>, Seq<char>))
    ensures
        collected(calls, Map::empty()).dom().contains(key) <==> exists|j: int|
            0 <= j < calls.len() && gives_index(#[trigger] calls[j], key),
    decreases calls.len(),
{
    if calls.len() > 0 {
        let before = calls.drop_last();
        let last = calls.len() - 1;
        lemma_collected_keys(before, key);
        if collected(calls, Map::empty()).dom().contains(key) && !gives_index(calls[last], key) {
            let j = choose|j: int|
                0 <= j < before.len() && gives_index(#[trigger] before[j], key);
            assert(gives_index(calls[j], key));
        }
        if exists|j: int| 0 <= j < calls.len() && gives_index(#[trigger] calls[j], key) {
            let j = choose|j: int| 0 <= j < calls.len() && gives_index(#[trigger] calls[j], key);
            if j < last {
                assert(gives_index(before[j], key));
            }
        }
    }
}

proof fn lemma_collected_index(calls: Seq<Call>, key: (Seq<char>, Seq<char>), j: int)
    requires
        0 <= j < calls.len(),
        gives_index(calls[j], key),
        forall|x: int| j < x < calls.len() ==> !gives_index(#[trigger] calls[x], key),
    ensures
        calls[j].entry == Some((key, collected(calls, Map::empty())[key])),
    decreases calls.len(),
{
    let last = calls.len() - 1;
    if j < last {
        let before = calls.drop_last();
        assert(!gives_index(calls[last], key));
        assert forall|x: int| j < x < before.len() implies !gives_index(
            #[trigger] before[x],
            key,
        ) by {
            assert(!gives_index(calls[x], key));
        }
        lemma_collected_index(before, key, j);
    }
}

/// Whether a step is one that the imports call for, where `defined` says which instances can be
/// defined.
pub open spec fn is_called_for(
    imports: Seq<Import>,
    defined: spec_fn(int) -> bool,
    step: Step,
) -> bool {
    &&& is_step(imports, step)
    &&& match step {
        Step::Instance(_) => true,
        Step::Function(i, _) => defined(i as int),
        Step::Resource(i, _) => defined(i as int),
        Step::Finished => false,
    }
}

proof fn lemma_contains_concat(a: Seq<Step>, b: Seq<Step>, step: Step)
    ensures
        (a + b).contains(step) <==> a.contains(step) || b.contains(step),
{
    let all = a + b;
    if a.contains(step) {
        let j = choose|j: int| 0 <= j < a.len() && a[j] == step;
        assert(all[j] == step);
    }
    if b.contains(step) {
        let j = choose|j: int| 0 <= j < b.len() && b[j] == step;
        assert(all[a.len() + j] == step);
    }
    if all.contains(step) {
        let j = choose|j: int| 0 <= j < all.len() && all[j] == step;
        if j < a.len() {
            assert(a[j] == step);
        } else {
            assert(b[j - a.len()] == step);
        }
    }
}

proof fn lemma_contains_one(one: Step, step: Step)
    ensures
        seq![one].contains(step) <==> one == step,
{
    assert(seq![one][0] == one);
}

proof fn lemma_function_steps_contain(imports: Seq<Import>, i: int, k: int, step: Step)
    requires
        0 <= i < imports.len() <= usize::MAX,
        0 <= k,
    ensures
        function_steps(imports, i, k).contains(step) <==> (step matches Step::Function(a, b) && a
            == i && k <= b < imports[i].item->Interface_0.functions@.len()),
    decreases imports[i].item->Interface_0.functions@.len() - k,
{
    let functions = imports[i].item->Interface_0.functions;
    assert(functions.len() == functions@.len());
    if k < functions@.len() {
        let one = Step::Function(i as usize, k as usize);
        lemma_function_steps_contain(imports, i, k + 1, step);
        lemma_contains_one(one, step);
        lemma_contains_concat(seq![one], function_steps(imports, i, k + 1), step);
    }
}

proof fn lemma_resource_steps_contain(imports: Seq<Import>, i: int, k: int, step: Step)
    requires
        0 <= i < imports.len() <= usize::MAX,
        0 <= k,
    ensures
        resource_steps(imports, i, k).contains(step) <==> (step matches Step::Resource(a, b) && a
            == i && k <= b < imports[i].item->Interface_0.types@.len() && is_own_resource(
            imports[i].item->Interface_0.types@[b as int],
            imports[i].name@,
        )),
    decreases imports[i].item->Interface_0.types@.len() - k,
{
    let types = imports[i].item->Interface_0.types;
    assert(types.len() == types@.len());
    if k < types@.len() {
        let one = Step::Resource(i as usize, k as usize);
        lemma_resource_steps_contain(imports, i, k + 1, step);
        lemma_contains_one(one, step);
        lemma_contains_concat(seq![one], resource_steps(imports, i, k + 1), step);
    }
}

proof fn lemma_import_steps_contain(
    imports: Seq<Import>,
    defined: spec_fn(int) -> bool,
    i: int,
    step: Step,
)
    requires
        0 <= i,
        imports.len() <= usize::MAX,
    ensures
        import_steps(imports, defined, i).contains(step) <==> is_called_for(imports, defined, step)
            && i <= position(imports, step).0,
    decreases imports.len() - i,
{
    if i < imports.len() {
        let rest = import_steps(imports, defined, i + 1);
        let one = Step::Instance(i as usize);
        lemma_import_steps_contain(imports, defined, i + 1, step);
        if is_polyfilled(imports[i]) {
            lemma_contains_one(one, step);
            if defined(i) && imports[i].item is Interface {
                let functions = function_steps(imports, i, 0);
                let resources = resource_steps(imports, i, 0);
                lemma_function_steps_contain(imports, i, 0, step);
                lemma_resource_steps_contain(imports, i, 0, step);
                lemma_contains_concat(resources, rest, step);
                lemma_contains_concat(functions, resources + rest, step);
                lemma_contains_concat(seq![one], functions + (resources + rest), step);
            } else {
                lemma_contains_concat(seq![one], rest, step);
            }
        }
    }
}

/// A step is taken if and only if the imports call for it: an instance for every import that is
/// an interface and that the host does not provide, and what is in that where it can be defined.
pub proof fn taken_if_called_for(imports: Seq<Import>, defined: spec_fn(int) -> bool, step: Step)
    requires
        imports.len() <= usize::MAX,
    ensures
        steps_from(imports, defined, import_from(imports, 0)).contains(step) <==> is_called_for(
            imports,
            defined,
            step,
        ),
{
    every_step_is_taken(imports, defined, 0);
    lemma_import_steps_contain(imports, defined, 0, step);
}

/// Whether a position is another or before it.
pub open spec fn is_not_after(a: (int, int, int), b: (int, int, int)) -> bool {
    a == b || is_before(a, b)
}

/// The steps are taken in the order of the imports: first the instance of an import, then its
/// functions, then its resources.
pub proof fn steps_are_in_order(imports: Seq<Import>, defined: spec_fn(int) -> bool, step: Step)
    requires
        imports.len() <= usize::MAX,
        is_step(imports, step),
    ensures
        forall|j: int|
            0 <= j < steps_from(imports, defined, step).len() ==> is_not_after(
                position(imports, step),
                position(imports, #[trigger] steps_from(imports, defined, step)[j]),
            ),
        forall|j: int, x: int|
            0 <= j < x < steps_from(imports, defined, step).len() ==> is_before(
                position(imports, #[trigger] steps_from(imports, defined, step)[j]),
                position(imports, #[trigger] steps_from(imports, defined, step)[x]),
            ),
    decreases
            imports.len() - position(imports, step).0,
            left_of_import(imports, step).0,
            left_of_import(imports, step).1,
{
    if !(step is Finished) {
        let next = next_step(imports, step, defined(position(imports, step).0));
        steps_go_forward(imports, step, defined(position(imports, step).0));
        lemma_next_is_step(imports, step, defined(position(imports, step).0));
        steps_are_in_order(imports, defined, next);
        let steps = steps_from(imports, defined, step);
        let rest = steps_from(imports, defined, next);
        assert(steps == seq![step] + rest);
        assert forall|j: int| 0 <= j < steps.len() implies is_not_after(
            position(imports, step),
            position(imports, #[trigger] steps[j]),
        ) && (j > 0 ==> is_before(position(imports, step), position(imports, steps[j]))) by {
            if j > 0 {
                assert(steps[j] == rest[j - 1]);
            }
        }
        assert forall|j: int, x: int| 0 <= j < x < steps.len() implies is_before(
            position(imports, #[trigger] steps[j]),
            position(imports, #[trigger] steps[x]),
        ) by {
            assert(steps[x] == rest[x - 1]);
            if j > 0 {
                assert(steps[j] == rest[j - 1]);
            }
        }
    }
}

/// Whether type `k` of import `i` is a resource of the key, is polyfilled, and got an index.
pub open spec fn got_index(
    imports: Seq<Import>,
    defined: spec_fn(int) -> bool,
    index: spec_fn(int, int) -> Option<u32>,
    i: int,
    k: int,
    key: (Seq<char>, Seq<char>),
) -> bool {
    &&& 0 <= i < imports.len()
    &&& is_polyfilled(imports[i])
    &&& defined(i)
    &&& imports[i].item matches ImportItem::Interface(interface)
    &&& 0 <= k < interface.types@.len()
    &&& is_own_resource(interface.types@[k], imports[i].name@)
    &&& resource_key(imports, i, k) == key
    &&& index(i, k) is Some
}

/// The indices at the end of the whole way, where `defined` says which instances can be defined
/// and `index` what comes of each resource.
pub open spec fn walked_paths(
    imports: Seq<Import>,
    defined: spec_fn(int) -> bool,
    index: spec_fn(int, int) -> Option<u32>,
) -> Map<(Seq<char>, Seq<char>), u32> {
    collected(calls(imports, index, import_steps(imports, defined, 0)), Map::empty())
}

/// The indices that the steps of a whole way put together are those of what the imports call for.
pub proof fn paths_of_walk(
    imports: Seq<Import>,
    defined: spec_fn(int) -> bool,
    index: spec_fn(int, int) -> Option<u32>,
)
    requires
        imports.len() <= usize::MAX,
    ensures
        paths_from(imports, defined, index, import_from(imports, 0), Map::empty()) == walked_paths(
            imports,
            defined,
            index,
        ),
{
    nothing_is_passed_over(imports, 0);
    lemma_paths_from(imports, defined, index, import_from(imports, 0), Map::empty());
    every_step_is_taken(imports, defined, 0);
}

/// At the end of the whole way a resource type has an index if and only if some import that is
/// polyfilled, and whose instance could be defined, has it as a resource of its own that could be
/// defined; the index is that of the last such resource.
pub proof fn indices_of_walk(
    imports: Seq<Import>,
    defined: spec_fn(int) -> bool,
    index: spec_fn(int, int) -> Option<u32>,
    key: (Seq<char>, Seq<char>),
)
    requires
        imports.len() <= usize::MAX,
    ensures
        walked_paths(imports, defined, index).dom().contains(key) <==> exists|i: int, k: int|
            #[trigger] got_index(imports, defined, index, i, k, key),
        forall|i: int, k: int|
            #[trigger] got_index(imports, defined, index, i, k, key) && (forall|a: int, b: int|
                #[trigger] got_index(imports, defined, index, a, b, key) ==> a < i || (a == i && b
                    <= k)) ==> Some(walked_paths(imports, defined, index)[key]) == index(i, k),
{
    let steps = import_steps(imports, defined, 0);
    let all = calls(imports, index, steps);
    lemma_collected_keys(all, key);
    nothing_is_passed_over(imports, 0);
    every_step_is_taken(imports, defined, 0);
    steps_are_in_order(imports, defined, import_from(imports, 0));
    assert forall|j: int| 0 <= j < all.len() && gives_index(#[trigger] all[j], key) implies (
    steps[j] matches Step::Resource(i, k) && got_index(
        imports,
        defined,
        index,
        i as int,
        k as int,
        key,
    )) by {
        assert(steps.contains(steps[j]));
        lemma_import_steps_contain(imports, defined, 0, steps[j]);
    }
    assert forall|i: int, k: int|
        #[trigger] got_index(imports, defined, index, i, k, key) implies exists|j: int|
        0 <= j < all.len() && gives_index(#[trigger] all[j], key) && steps[j] == Step::Resource(
            i as usize,
            k as usize,
        ) by {
        let types = imports[i].item->Interface_0.types;
        assert(types.len() == types@.len());
        let step = Step::Resource(i as usize, k as usize);
        lemma_import_steps_contain(imports, defined, 0, step);
        let j = choose|j: int| 0 <= j < steps.len() && steps[j] == step;
        assert(gives_index(all[j], key));
    }
    assert forall|i: int, k: int|
        #[trigger] got_index(imports, defined, index, i, k, key) && (forall|a: int, b: int|
            #[trigger] got_index(imports, defined, index, a, b, key) ==> a < i || (a == i && b
                <= k)) implies Some(walked_paths(imports, defined, index)[key]) == index(i, k) by {
        let types = imports[i].item->Interface_0.types;
        assert(types.len() == types@.len());
        let j = choose|j: int|
            0 <= j < all.len() && gives_index(#[trigger] all[j], key) && steps[j]
                == Step::Resource(i as usize, k as usize);
        assert forall|x: int| j < x < all.len() implies !gives_index(#[trigger] all[x], key) by {
            if gives_index(all[x], key) {
                assert(is_before(position(imports, steps[j]), position(imports, steps[x])));
            }
        }
        lemma_collected_index(all, key, j);
    }
}

/// The imports without what the host provides and without what is no interface.
pub open spec fn kept(imports: Seq<Import>) -> Seq<Import> {
    imports.filter(|import: Import| is_polyfilled(import))
}

/// Where in the imports each of those that are kept is.
pub open spec fn origins(imports: Seq<Import>) -> Seq<int>
    decreases imports.len(),
{
    if imports.len() == 0 {
        Seq::empty()
    } else {
        let before = origins(imports.drop_last());
        if is_polyfilled(imports.last()) {
            before.push(imports.len() - 1)
        } else {
            before
        }
    }
}

/// The imports that are kept are those that are polyfilled, in order.
pub proof fn kept_imports(imports: Seq<Import>)
    ensures
        kept(imports).len() == origins(imports).len() <= imports.len(),
        forall|j: int|
            0 <= j < origins(imports).len() ==> 0 <= #[trigger] origins(imports)[j] < imports.len()
                && kept(imports)[j] == imports[origins(imports)[j]] && is_polyfilled(
                kept(imports)[j],
            ),
        forall|j: int, x: int|
            0 <= j < x < origins(imports).len() ==> #[trigger] origins(imports)[j]
                < #[trigger] origins(imports)[x],
        forall|i: int|
            0 <= i < imports.len() && is_polyfilled(#[trigger] imports[i]) ==> origins(
                imports,
            ).contains(i),
    decreases imports.len(),
{
    reveal(Seq::filter);
    if imports.len() > 0 {
        let before = imports.drop_last();
        let last = imports.len() - 1;
        kept_imports(before);
        let all = origins(imports);
        let some = origins(before);
        assert forall|j: int| 0 <= j < all.len() implies 0 <= #[trigger] all[j] < imports.len()
            && kept(imports)[j] == imports[all[j]] && is_polyfilled(kept(imports)[j]) by {
            if j < some.len() {
                assert(all[j] == some[j]);
                assert(kept(imports)[j] == kept(before)[j]);
            }
        }
        assert forall|j: int, x: int| 0 <= j < x < all.len() implies #[trigger] all[j]
            < #[trigger] all[x] by {
            assert(all[j] == some[j]);
            if x < some.len() {
                assert(all[x] == some[x]);
            }
        }
        assert forall|i: int| 0 <= i < imports.len() && is_polyfilled(
            #[trigger] imports[i],
        ) implies all.contains(i) by {
            if i < last {
                assert(is_polyfilled(before[i]));
                let j = choose|j: int| 0 <= j < some.len() && some[j] == i;
                assert(all[j] == i);
            } else {
                assert(all[some.len() as int] == i);
            }
        }
    }
}

proof fn lemma_calls_concat(
    imports: Seq<Import>,
    index: spec_fn(int, int) -> Option<u32>,
    a: Seq<Step>,
    b: Seq<Step>,
)
    ensures
        calls(imports, index, a + b) == calls(imports, index, a) + calls(imports, index, b),
{
    assert(calls(imports, index, a + b) =~= calls(imports, index, a) + calls(imports, index, b));
}

proof fn lemma_same_functions(
    imports: Seq<Import>,
    others: Seq<Import>,
    index: spec_fn(int, int) -> Option<u32>,
    other_index: spec_fn(int, int) -> Option<u32>,
    i: int,
    j: int,
    k: int,
)
    requires
        0 <= i < imports.len() <= usize::MAX,
        0 <= j < others.len() <= usize::MAX,
        imports[i] == others[j],
        0 <= k,
    ensures
        calls(others, other_index, function_steps(others, j, k)) == calls(
            imports,
            index,
            function_steps(imports, i, k),
        ),
    decreases imports[i].item->Interface_0.functions@.len() - k,
{
    let functions = imports[i].item->Interface_0.functions;
    assert(functions.len() == functions@.len());
    let one = seq![Step::Function(i as usize, k as usize)];
    let other = seq![Step::Function(j as usize, k as usize)];
    if k < functions@.len() {
        lemma_same_functions(imports, others, index, other_index, i, j, k + 1);
        lemma_calls_concat(imports, index, one, function_steps(imports, i, k + 1));
        lemma_calls_concat(others, other_index, other, function_steps(others, j, k + 1));
        assert(calls(imports, index, one) =~= calls(others, other_index, other));
    } else {
        assert(calls(imports, index, Seq::empty()) =~= calls(others, other_index, Seq::empty()));
    }
}

proof fn lemma_same_resources(
    imports: Seq<Import>,
    others: Seq<Import>,
    index: spec_fn(int, int) -> Option<u32>,
    other_index: spec_fn(int, int) -> Option<u32>,
    i: int,
    j: int,
    k: int,
)
    requires
        0 <= i < imports.len() <= usize::MAX,
        0 <= j < others.len() <= usize::MAX,
        imports[i] == others[j],
        forall|k: int| #[trigger] other_index(j, k) == index(i, k),
        0 <= k,
    ensures
        calls(others, other_index, resource_steps(others, j, k)) == calls(
            imports,
            index,
            resource_steps(imports, i, k),
        ),
    decreases imports[i].item->Interface_0.types@.len() - k,
{
    let types = imports[i].item->Interface_0.types;
    assert(types.len() == types@.len());
    let one = seq![Step::Resource(i as usize, k as usize)];
    let other = seq![Step::Resource(j as usize, k as usize)];
    if k < types@.len() {
        lemma_same_resources(imports, others, index, other_index, i, j, k + 1);
        lemma_calls_concat(imports, index, one, resource_steps(imports, i, k + 1));
        lemma_calls_concat(others, other_index, other, resource_steps(others, j, k + 1));
        assert(other_index(j, k) == index(i, k));
        assert(calls(imports, index, one) =~= calls(others, other_index, other));
    } else {
        assert(calls(imports, index, Seq::empty()) =~= calls(others, other_index, Seq::empty()));
    }
}

/// Whether the same comes of each definition in the imports that are kept as in all imports.
pub open spec fn same_outcomes(
    imports: Seq<Import>,
    defined: spec_fn(int) -> bool,
    index: spec_fn(int, int) -> Option<u32>,
    kept_defined: spec_fn(int) -> bool,
    kept_index: spec_fn(int, int) -> Option<u32>,
) -> bool {
    &&& forall|j: int|
        0 <= j < origins(imports).len() ==> #[trigger] kept_defined(j) == defined(
            origins(imports)[j],
        )
    &&& forall|j: int, k: int|
        0 <= j < origins(imports).len() ==> #[trigger] kept_index(j, k) == index(
            origins(imports)[j],
            k,
        )
}

proof fn lemma_same_calls(
    imports: Seq<Import>,
    defined: spec_fn(int) -> bool,
    index: spec_fn(int, int) -> Option<u32>,
    kept_defined: spec_fn(int) -> bool,
    kept_index: spec_fn(int, int) -> Option<u32>,
    i: int,
    j: int,
)
    requires
        imports.len() <= usize::MAX,
        same_outcomes(imports, defined, index, kept_defined, kept_index),
        0 <= i,
        0 <= j <= origins(imports).len(),
        forall|x: int| 0 <= x < j ==> #[trigger] origins(imports)[x] < i,
        forall|x: int| j <= x < origins(imports).len() ==> #[trigger] origins(imports)[x] >= i,
    ensures
        calls(kept(imports), kept_index, import_steps(kept(imports), kept_defined, j)) == calls(
            imports,
            index,
            import_steps(imports, defined, i),
        ),
    decreases imports.len() - i,
{
    let others = kept(imports);
    let from = origins(imports);
    kept_imports(imports);
    if i >= imports.len() {
        if j < from.len() {
            assert(from[j] < imports.len());
        }
        assert(calls(imports, index, Seq::empty()) =~= calls(others, kept_index, Seq::empty()));
    } else if !is_polyfilled(imports[i]) {
        assert forall|x: int| j <= x < from.len() implies #[trigger] from[x] >= i + 1 by {
            assert(is_polyfilled(others[x]));
        }
        lemma_same_calls(imports, defined, index, kept_defined, kept_index, i + 1, j);
    } else {
        assert(from.contains(i));
        let at = choose|x: int| 0 <= x < from.len() && from[x] == i;
        if j < at {
            assert(from[j] < from[at]);
        }
        assert(at == j);
        assert(others[j] == imports[i]);
        assert forall|x: int| j + 1 <= x < from.len() implies #[trigger] from[x] >= i + 1 by {
            assert(from[j] < from[x]);
        }
        lemma_same_calls(imports, defined, index, kept_defined, kept_index, i + 1, j + 1);
        let one = seq![Step::Instance(i as usize)];
        let other = seq![Step::Instance(j as usize)];
        assert(calls(imports, index, one) =~= calls(others, kept_index, other));
        let rest = import_steps(imports, defined, i + 1);
        let other_rest = import_steps(others, kept_defined, j + 1);
        assert(kept_defined(j) == defined(i));
        if defined(i) && imports[i].item is Interface {
            let functions = function_steps(imports, i, 0);
            let resources = resource_steps(imports, i, 0);
            let other_functions = function_steps(others, j, 0);
            let other_resources = resource_steps(others, j, 0);
            lemma_same_functions(imports, others, index, kept_index, i, j, 0);
            lemma_same_resources(imports, others, index, kept_index, i, j, 0);
            lemma_calls_concat(imports, index, resources, rest);
            lemma_calls_concat(imports, index, functions, resources + rest);
            lemma_calls_concat(imports, index, one, functions + (resources + rest));
            lemma_calls_concat(others, kept_index, other_resources, other_rest);
            lemma_calls_concat(others, kept_index, other_functions, other_resources + other_rest);
            lemma_calls_concat(
                others,
                kept_index,
                other,
                other_functions + (other_resources + other_rest),
            );
        } else {
            lemma_calls_concat(imports, index, one, rest);
            lemma_calls_concat(others, kept_index, other, other_rest);
        }
    }
}

/// What the host provides, and what is no interface, may be left out of the imports: the same is
/// defined in the linker, under the same names and in the same order, and the same resource types
/// have the same indices at the end, where the same comes of the same definition.
pub proof fn skipped_imports_change_nothing(
    imports: Seq<Import>,
    defined: spec_fn(int) -> bool,
    index: spec_fn(int, int) -> Option<u32>,
    kept_defined: spec_fn(int) -> bool,
    kept_index: spec_fn(int, int) -> Option<u32>,
)
    requires
        imports.len() <= usize::MAX,
        same_outcomes(imports, defined, index, kept_defined, kept_index),
    ensures
        calls(kept(imports), kept_index, import_steps(kept(imports), kept_defined, 0)) == calls(
            imports,
            index,
            import_steps(imports, defined, 0),
        ),
        walked_paths(kept(imports), kept_defined, kept_index) == walked_paths(
            imports,
            defined,
            index,
        ),
{
    kept_imports(imports);
    lemma_same_calls(imports, defined, index, kept_defined, kept_index, 0, 0);
}

proof fn lemma_walk_imports(
    imports: &Vec<Import>,
    defined: spec_fn(int) -> bool,
    index: spec_fn(int, int) -> Option<u32>,
    walk: Seq<Polyfill>,
    steps: Seq<Step>,
    j: int,
)
    requires
        walk.len() == steps.len() > 0,
        call_ensures(Polyfill::new, (imports,), walk[0]),
        forall|j: int|
            0 <= j < walk.len() ==> call_ensures(Polyfill::step, (&walk[j],), #[trigger] steps[j]),
        forall|j: int|
            0 <= j < walk.len() - 1 && (#[trigger] steps[j]) is Instance ==> call_ensures(
                Polyfill::instance,
                (walk[j], defined(steps[j]->Instance_0 as int)),
                walk[j + 1],
            ),
        forall|j: int|
            0 <= j < walk.len() - 1 && (#[trigger] steps[j]) is Function ==> call_ensures(
                Polyfill::function,
                (walk[j],),
                walk[j + 1],
            ),
        forall|j: int|
            0 <= j < walk.len() - 1 && (#[trigger] steps[j]) is Resource ==> call_ensures(
                Polyfill::resource,
                (walk[j], index(steps[j]->Resource_0 as int, steps[j]->Resource_1 as int)),
                walk[j + 1],
            ),
        forall|j: int| 0 <= j < walk.len() - 1 ==> !((#[trigger] steps[j]) is Finished),
        steps.last() is Finished,
        0 <= j < walk.len(),
    ensures
        walk[j].imports() == imports@,
    decreases j,
{
    if j > 0 {
        lemma_walk_imports(imports, defined, index, walk, steps, j - 1);
        assert(call_ensures(Polyfill::step, (&walk[j - 1],), steps[j - 1]));
    }
}

proof fn lemma_walk_from(
    imports: &Vec<Import>,
    defined: spec_fn(int) -> bool,
    index: spec_fn(int, int) -> Option<u32>,
    walk: Seq<Polyfill>,
    steps: Seq<Step>,
    j: int,
)
    requires
        walk.len() == steps.len() > 0,
        call_ensures(Polyfill::new, (imports,), walk[0]),
        forall|j: int|
            0 <= j < walk.len() ==> call_ensures(Polyfill::step, (&walk[j],), #[trigger] steps[j]),
        forall|j: int|
            0 <= j < walk.len() - 1 && (#[trigger] steps[j]) is Instance ==> call_ensures(
                Polyfill::instance,
                (walk[j], defined(steps[j]->Instance_0 as int)),
                walk[j + 1],
            ),
        forall|j: int|
            0 <= j < walk.len() - 1 && (#[trigger] steps[j]) is Function ==> call_ensures(
                Polyfill::function,
                (walk[j],),
                walk[j + 1],
            ),
        forall|j: int|
            0 <= j < walk.len() - 1 && (#[trigger] steps[j]) is Resource ==> call_ensures(
                Polyfill::resource,
                (walk[j], index(steps[j]->Resource_0 as int, steps[j]->Resource_1 as int)),
                walk[j + 1],
            ),
        forall|j: int| 0 <= j < walk.len() - 1 ==> !((#[trigger] steps[j]) is Finished),
        steps.last() is Finished,
        0 <= j < walk.len(),
    ensures
        is_step(imports@, steps[j]),
        steps_from(imports@, defined, steps[j]) == steps.subrange(j, steps.len() - 1),
        paths_from(imports@, defined, index, steps[j], walk[j].paths()) == walk.last().paths(),
    decreases walk.len() - j,
{
    assert(imports.len() == imports@.len());
    lemma_walk_imports(imports, defined, index, walk, steps, j);
    assert(call_ensures(Polyfill::step, (&walk[j],), steps[j]));
    if j == walk.len() - 1 {
        assert(steps.subrange(j, j) =~= Seq::empty());
    } else {
        lemma_walk_from(imports, defined, index, walk, steps, j + 1);
        assert(call_ensures(Polyfill::step, (&walk[j + 1],), steps[j + 1]));
        let step = steps[j];
        let is_defined = defined(position(imports@, step).0);
        assert(steps[j + 1] == next_step(imports@, step, is_defined));
        assert(walk[j + 1].paths() == next_paths(
            imports@,
            step,
            index_of(index, step),
            walk[j].paths(),
        ));
        steps_go_forward(imports@, step, is_defined);
        lemma_next_is_step(imports@, step, is_defined);
        assert(steps.subrange(j, steps.len() - 1) =~= seq![step] + steps.subrange(
            j + 1,
            steps.len() - 1,
        ));
    }
}

proof fn lemma_walk_contains(
    imports: &Vec<Import>,
    defined: spec_fn(int) -> bool,
    index: spec_fn(int, int) -> Option<u32>,
    walk: Seq<Polyfill>,
    steps: Seq<Step>,
    step: Step,
)
    requires
        walk.len() == steps.len() > 0,
        call_ensures(Polyfill::new, (imports,), walk[0]),
        forall|j: int|
            0 <= j < walk.len() ==> call_ensures(Polyfill::step, (&walk[j],), #[trigger] steps[j]),
        forall|j: int|
            0 <= j < walk.len() - 1 && (#[trigger] steps[j]) is Instance ==> call_ensures(
                Polyfill::instance,
                (walk[j], defined(steps[j]->Instance_0 as int)),
                walk[j + 1],
            ),
        forall|j: int|
            0 <= j < walk.len() - 1 && (#[trigger] steps[j]) is Function ==> call_ensures(
                Polyfill::function,
                (walk[j],),
                walk[j + 1],
            ),
        forall|j: int|
            0 <= j < walk.len() - 1 && (#[trigger] steps[j]) is Resource ==> call_ensures(
                Polyfill::resource,
                (walk[j], index(steps[j]->Resource_0 as int, steps[j]->Resource_1 as int)),
                walk[j + 1],
            ),
        forall|j: int| 0 <= j < walk.len() - 1 ==> !((#[trigger] steps[j]) is Finished),
        steps.last() is Finished,
        !(step is Finished),
    ensures
        steps.contains(step) <==> is_called_for(imports@, defined, step),
{
    assert(imports.len() == imports@.len());
    lemma_walk_from(imports, defined, index, walk, steps, 0);
    assert(call_ensures(Polyfill::step, (&walk[0],), steps[0]));
    taken_if_called_for(imports@, defined, step);
    let taken = steps.subrange(0, steps.len() - 1);
    if steps.contains(step) {
        let j = choose|j: int| 0 <= j < steps.len() && steps[j] == step;
        assert(taken[j] == step);
    }
    if taken.contains(step) {
        let j = choose|j: int| 0 <= j < taken.len() && taken[j] == step;
        assert(steps[j] == step);
    }
}

/// However far a walk over imports goes, what it calls for is what the imports are: an instance
/// for every interface, there or not, whose name is none of those that the host provides; where
/// that could be defined, every function of the interface; and every type of it that is a resource
/// of that very instance.
pub proof fn a_walk_calls_for_what_is_imported(
    imports: &Vec<Import>,
    defined: spec_fn(int) -> bool,
    index: spec_fn(int, int) -> Option<u32>,
    walk: Seq<Polyfill>,
    steps: Seq<Step>,
    i: usize,
    k: usize,
)
    requires
        walk.len() == steps.len() > 0,
        call_ensures(Polyfill::new, (imports,), walk[0]),
        forall|j: int|
            0 <= j < walk.len() ==> call_ensures(Polyfill::step, (&walk[j],), #[trigger] steps[j]),
        forall|j: int|
            0 <= j < walk.len() - 1 && (#[trigger] steps[j]) is Instance ==> call_ensures(
                Polyfill::instance,
                (walk[j], defined(steps[j]->Instance_0 as int)),
                walk[j + 1],
            ),
        forall|j: int|
            0 <= j < walk.len() - 1 && (#[trigger] steps[j]) is Function ==> call_ensures(
                Polyfill::function,
                (walk[j],),
                walk[j + 1],
            ),
        forall|j: int|
            0 <= j < walk.len() - 1 && (#[trigger] steps[j]) is Resource ==> call_ensures(
                Polyfill::resource,
                (walk[j], index(steps[j]->Resource_0 as int, steps[j]->Resource_1 as int)),
                walk[j + 1],
            ),
        forall|j: int| 0 <= j < walk.len() - 1 ==> !((#[trigger] steps[j]) is Finished),
        steps.last() is Finished,
    ensures
        steps.contains(Step::Instance(i)) <==> {
            &&& i < imports@.len()
            &&& imports@[i as int].item is Interface || imports@[i as int].item is MissingInterface
            &&& imports@[i as int].name@ != "wasi:cli/environment@0.2.0"@
            &&& imports@[i as int].name@ != "wasi:cli/exit@0.2.0"@
            &&& imports@[i as int].name@ != "wasi:cli/stderr@0.2.0"@
            &&& imports@[i as int].name@ != "wasi:cli/stdin@0.2.0"@
            &&& imports@[i as int].name@ != "wasi:cli/stdout@0.2.0"@
            &&& imports@[i as int].name@ != "wasi:cli/terminal-input@0.2.0"@
            &&& imports@[i as int].name@ != "wasi:cli/terminal-output@0.2.0"@
            &&& imports@[i as int].name@ != "wasi:cli/terminal-stderr@0.2.0"@
            &&& imports@[i as int].name@ != "wasi:cli/terminal-stdin@0.2.0"@
            &&& imports@[i as int].name@ != "wasi:cli/terminal-stdout@0.2.0"@
            &&& imports@[i as int].name@ != "wasi:clocks/monotonic-clock@0.2.0"@
            &&& imports@[i as int].name@ != "wasi:clocks/wall-clock@0.2.0"@
            &&& imports@[i as int].name@ != "wasi:filesystem/preopens@0.2.0"@
            &&& imports@[i as int].name@ != "wasi:filesystem/types@0.2.0"@
            &&& imports@[i as int].name@ != "wasi:http/incoming-handler@0.2.0"@
            &&& imports@[i as int].name@ != "wasi:http/outgoing-handler@0.2.0"@
            &&& imports@[i as int].name@ != "wasi:http/types@0.2.0"@
            &&& imports@[i as int].name@ != "wasi:io/error@0.2.0"@
            &&& imports@[i as int].name@ != "wasi:io/poll@0.2.0"@
            &&& imports@[i as int].name@ != "wasi:io/streams@0.2.0"@
            &&& imports@[i as int].name@ != "wasi:sockets/tcp@0.2.0"@
        },
        steps.contains(Step::Function(i, k)) <==> {
            &&& steps.contains(Step::Instance(i))
            &&& defined(i as int)
            &&& imports@[i as int].item matches ImportItem::Interface(interface)
            &&& k < interface.functions@.len()
        },
        steps.contains(Step::Resource(i, k)) <==> {
            &&& steps.contains(Step::Instance(i))
            &&& defined(i as int)
            &&& imports@[i as int].item matches ImportItem::Interface(interface)
            &&& k < interface.types@.len()
            &&& interface.types@[k as int].kind matches TypeKind::Resource(resource)
            &&& resource.instance@ == imports@[i as int].name@
        },
{
    lemma_walk_contains(imports, defined, index, walk, steps, Step::Instance(i));
    lemma_walk_contains(imports, defined, index, walk, steps, Step::Function(i, k));
    lemma_walk_contains(imports, defined, index, walk, steps, Step::Resource(i, k));
}

/// A walk calls for nothing twice, and goes on in the order of the imports: first for the instance
/// of an import, then for its functions in order, then for its resources in order.
pub proof fn a_walk_goes_on_in_order(
    imports: &Vec<Import>,
    defined: spec_fn(int) -> bool,
    index: spec_fn(int, int) -> Option<u32>,
    walk: Seq<Polyfill>,
    steps: Seq<Step>,
    j: int,
    x: int,
)
    requires
        walk.len() == steps.len() > 0,
        call_ensures(Polyfill::new, (imports,), walk[0]),
        forall|j: int|
            0 <= j < walk.len() ==> call_ensures(Polyfill::step, (&walk[j],), #[trigger] steps[j]),
        forall|j: int|
            0 <= j < walk.len() - 1 && (#[trigger] steps[j]) is Instance ==> call_ensures(
                Polyfill::instance,
                (walk[j], defined(steps[j]->Instance_0 as int)),
                walk[j + 1],
            ),
        forall|j: int|
            0 <= j < walk.len() - 1 && (#[trigger] steps[j]) is Function ==> call_ensures(
                Polyfill::function,
                (walk[j],),
                walk[j + 1],
            ),
        forall|j: int|
            0 <= j < walk.len() - 1 && (#[trigger] steps[j]) is Resource ==> call_ensures(
                Polyfill::resource,
                (walk[j], index(steps[j]->Resource_0 as int, steps[j]->Resource_1 as int)),
                walk[j + 1],
            ),
        forall|j: int| 0 <= j < walk.len() - 1 ==> !((#[trigger] steps[j]) is Finished),
        steps.last() is Finished,
        0 <= j < x < steps.len() - 1,
    ensures
        match (steps[j], steps[x]) {
            (Step::Instance(a), Step::Instance(b)) => a < b,
            (Step::Instance(a), Step::Function(b, _)) => a <= b,
            (Step::Instance(a), Step::Resource(b, _)) => a <= b,
            (Step::Function(a, _), Step::Instance(b)) => a < b,
            (Step::Function(a, f), Step::Function(b, g)) => a < b || (a == b && f < g),
            (Step::Function(a, _), Step::Resource(b, _)) => a <= b,
            (Step::Resource(a, _), Step::Instance(b)) => a < b,
            (Step::Resource(a, _), Step::Function(b, _)) => a < b,
            (Step::Resource(a, f), Step::Resource(b, g)) => a < b || (a == b && f < g),
            _ => false,
        },
{
    assert(imports.len() == imports@.len());
    lemma_walk_from(imports, defined, index, walk, steps, 0);
    assert(call_ensures(Polyfill::step, (&walk[0],), steps[0]));
    lemma_walk_from(imports, defined, index, walk, steps, j);
    lemma_walk_from(imports, defined, index, walk, steps, x);
    steps_are_in_order(imports@, defined, steps[0]);
    let taken = steps_from(imports@, defined, steps[0]);
    assert(taken[j] == steps[j] && taken[x] == steps[x]);
    assert(call_ensures(Polyfill::step, (&walk[j],), steps[j]));
    assert(call_ensures(Polyfill::step, (&walk[x],), steps[x]));
}

/// After a walk a type has an index exactly where the walk called for a resource of that instance
/// and that name which could be defined, and the index is what came of the last such resource.
pub proof fn indices_after_a_walk(
    imports: &Vec<Import>,
    defined: spec_fn(int) -> bool,
    index: spec_fn(int, int) -> Option<u32>,
    walk: Seq<Polyfill>,
    steps: Seq<Step>,
    paths: ResourcePaths,
    ty: &DynamicResourceType,
    r: Option<u32>,
)
    requires
        walk.len() == steps.len() > 0,
        call_ensures(Polyfill::new, (imports,), walk[0]),
        forall|j: int|
            0 <= j < walk.len() ==> call_ensures(Polyfill::step, (&walk[j],), #[trigger] steps[j]),
        forall|j: int|
            0 <= j < walk.len() - 1 && (#[trigger] steps[j]) is Instance ==> call_ensures(
                Polyfill::instance,
                (walk[j], defined(steps[j]->Instance_0 as int)),
                walk[j + 1],
            ),
        forall|j: int|
            0 <= j < walk.len() - 1 && (#[trigger] steps[j]) is Function ==> call_ensures(
                Polyfill::function,
                (walk[j],),
                walk[j + 1],
            ),
        forall|j: int|
            0 <= j < walk.len() - 1 && (#[trigger] steps[j]) is Resource ==> call_ensures(
                Polyfill::resource,
                (walk[j], index(steps[j]->Resource_0 as int, steps[j]->Resource_1 as int)),
                walk[j + 1],
            ),
        forall|j: int| 0 <= j < walk.len() - 1 ==> !((#[trigger] steps[j]) is Finished),
        steps.last() is Finished,
        call_ensures(Polyfill::into_paths, (walk.last(),), paths),
        call_ensures(ResourcePaths::get, (&paths, ty), r),
    ensures
        r is Some <==> exists|j: int|
            0 <= j < steps.len() && (#[trigger] steps[j] matches Step::Resource(i, k) && index(
                i as int,
                k as int,
            ) is Some && imports@[i as int].name@ == ty.instance@
                && imports@[i as int].item->Interface_0.types@[k as int].kind->Resource_0.name@
                == ty.name@),
        forall|j: int|
            0 <= j < steps.len() && (#[trigger] steps[j] matches Step::Resource(i, k) && index(
                i as int,
                k as int,
            ) is Some && imports@[i as int].name@ == ty.instance@
                && imports@[i as int].item->Interface_0.types@[k as int].kind->Resource_0.name@
                == ty.name@ && forall|x: int|
                j < x < steps.len() ==> !(#[trigger] steps[x] matches Step::Resource(a, b)
                    && index(a as int, b as int) is Some && imports@[a as int].name@
                    == ty.instance@
                    && imports@[a as int].item->Interface_0.types@[b as int].kind->Resource_0.name@
                    == ty.name@)) ==> r == index(
                steps[j]->Resource_0 as int,
                steps[j]->Resource_1 as int,
            ),
{
    assert(imports.len() == imports@.len());
    lemma_walk_from(imports, defined, index, walk, steps, 0);
    assert(call_ensures(Polyfill::step, (&walk[0],), steps[0]));
    let key = ty.key();
    lemma_paths_from(imports@, defined, index, steps[0], Map::empty());
    let taken = steps_from(imports@, defined, steps[0]);
    let all = calls(imports@, index, taken);
    lemma_collected_keys(all, key);
    assert(r == collected(all, Map::empty()).get(key));
    assert forall|j: int| 0 <= j < steps.len() implies is_step(imports@, #[trigger] steps[j]) by {
        assert(call_ensures(Polyfill::step, (&walk[j],), steps[j]));
        lemma_walk_imports(imports, defined, index, walk, steps, j);
    }
    assert forall|j: int| 0 <= j < all.len() implies gives_index(#[trigger] all[j], key) == (
    steps[j] matches Step::Resource(i, k) && index(i as int, k as int) is Some
        && imports@[i as int].name@ == ty.instance@
        && imports@[i as int].item->Interface_0.types@[k as int].kind->Resource_0.name@
        == ty.name@) by {
        assert(taken[j] == steps[j]);
    }
    if exists|j: int| 0 <= j < all.len() && gives_index(#[trigger] all[j], key) {
        let j = choose|j: int| 0 <= j < all.len() && gives_index(#[trigger] all[j], key);
        assert(steps[j] is Resource);
    }
    assert forall|j: int|
        0 <= j < steps.len() && (#[trigger] steps[j] matches Step::Resource(i, k) && index(
            i as int,
            k as int,
        ) is Some && imports@[i as int].name@ == ty.instance@
            && imports@[i as int].item->Interface_0.types@[k as int].kind->Resource_0.name@
            == ty.name@) implies gives_index(all[j], key) && j < all.len() by {}
    assert forall|j: int|
        0 <= j < steps.len() && (#[trigger] steps[j] matches Step::Resource(i, k) && index(
            i as int,
            k as int,
        ) is Some && imports@[i as int].name@ == ty.instance@
            && imports@[i as int].item->Interface_0.types@[k as int].kind->Resource_0.name@
            == ty.name@ && forall|x: int|
            j < x < steps.len() ==> !(#[trigger] steps[x] matches Step::Resource(a, b) && index(
                a as int,
                b as int,
            ) is Some && imports@[a as int].name@ == ty.instance@
                && imports@[a as int].item->Interface_0.types@[b as int].kind->Resource_0.name@
                == ty.name@)) implies r == index(
        steps[j]->Resource_0 as int,
        steps[j]->Resource_1 as int,
    ) by {
        assert forall|x: int| j < x < all.len() implies !gives_index(#[trigger] all[x], key) by {
            assert(!(steps[x] matches Step::Resource(a, b) && index(a as int, b as int) is Some
                && imports@[a as int].name@ == ty.instance@
                && imports@[a as int].item->Interface_0.types@[b as int].kind->Resource_0.name@
                == ty.name@));
        }
        lemma_collected_index(all, key, j);
        assert(taken[j] == steps[j]);
        assert(all[j] == call(imports@, index, steps[j]));
    }
}

} // verus!

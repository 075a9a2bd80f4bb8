//! Which functions of a component are served, and how an invocation of one is carried out.
use vstd::prelude::*;

use crate::value::{names_model, vals_model, Val, ValModel};

verus! {

/// What an instance exports under a name.
#[derive(Debug, PartialEq, Eq)]
pub struct InstanceExport {
    pub name: String,
    pub is_function: bool,
}

/// What a component exports under a name: for an instance, what that exports.
#[derive(Debug, PartialEq, Eq)]
pub struct Export {
    pub name: String,
    pub instance: Option<Vec<InstanceExport>>,
}

/// A function that is served, and the instance that exports it.
#[derive(Debug, PartialEq, Eq)]
pub struct Served {
    pub instance: String,
    pub function: String,
}

/// The functions among the first `n` exports of an instance.
pub open spec fn functions(exports: Seq<InstanceExport>, n: nat) -> Seq<Seq<char>>
    decreases n,
{
    if n == 0 {
        Seq::empty()
    } else {
        let before = functions(exports, (n - 1) as nat);
        if exports[n - 1].is_function {
            before.push(exports[n - 1].name@)
        } else {
            before
        }
    }
}

/// The instance and the function, for each function that the first `n` exports of a component
/// have.
pub open spec fn served(exports: Seq<Export>, n: nat) -> Seq<(Seq<char>, Seq<char>)>
    decreases n,
{
    if n == 0 {
        Seq::empty()
    } else {
        let before = served(exports, (n - 1) as nat);
        match exports[n - 1].instance {
            Some(instance) => before + of_instance(
                exports[n - 1].name@,
                functions(instance@, instance@.len()),
            ),
            None => before,
        }
    }
}

/// Each function with the name of its instance.
pub open spec fn of_instance(instance: Seq<char>, functions: Seq<Seq<char>>) -> Seq<
    (Seq<char>, Seq<char>),
> {
    Seq::new(functions.len(), |i: int| (instance, functions[i]))
}

/// The content of what is served.
pub open spec fn served_model(r: Seq<Served>) -> Seq<(Seq<char>, Seq<char>)> {
    Seq::new(r.len(), |i: int| (r[i].instance@, r[i].function@))
}

/// Appends the functions that an instance exports.
fn push_functions(name: &String, exports: &Vec<InstanceExport>, r: &mut Vec<Served>)
    ensures
        served_model(final(r)@) == served_model(old(r)@) + of_instance(
            name@,
            functions(exports@, exports@.len()),
        ),
{
    let mut i: usize = 0;
    assert(served_model(r@) =~= served_model(old(r)@) + of_instance(name@, functions(exports@, 0)));
    while i < exports.len()
        invariant
            i <= exports@.len(),
            served_model(r@) == served_model(old(r)@) + of_instance(
                name@,
                functions(exports@, i as nat),
            ),
        decreases exports@.len() - i,
    {
        let ghost before = r@;
        if exports[i].is_function {
            r.push(Served { instance: name.clone(), function: exports[i].name.clone() });
            assert(served_model(r@) =~= served_model(before).push(
                (name@, exports@[i as int].name@),
            ));
        }
        i = i + 1;
        assert(functions(exports@, i as nat) == if exports@[i - 1].is_function {
            functions(exports@, (i - 1) as nat).push(exports@[i - 1].name@)
        } else {
            functions(exports@, (i - 1) as nat)
        });
        assert(served_model(r@) =~= served_model(old(r)@) + of_instance(
            name@,
            functions(exports@, i as nat),
        ));
    }
}

/// Lists the functions that are served: those that the instances a component exports have, in
/// order.
pub fn served_functions(exports: &Vec<Export>) -> (r: Vec<Served>)
    ensures
        served_model(r@) == served(exports@, exports@.len()),
{
    let mut r: Vec<Served> = Vec::new();
    let mut i: usize = 0;
    assert(served_model(r@) =~= Seq::empty());
    while i < exports.len()
        invariant
            i <= exports@.len(),
            served_model(r@) == served(exports@, i as nat),
        decreases exports@.len() - i,
    {
        if let Some(instance) = &exports[i].instance {
            push_functions(&exports[i].name, instance, &mut r);
        }
        i = i + 1;
    }
    r
}

/// What an invocation is answered by.
#[derive(Debug, Clone, Copy, PartialEq, Eq, Structural)]
pub enum Target {
    /// The handler of requests, which is not called like other functions.
    HttpHandler,
    /// A function that the component exports itself.
    Root,
    /// A function of an instance that the component exports.
    Instance,
}

/// What an invocation of a function is answered by.
pub open spec fn target_of(instance: Seq<char>, function: Seq<char>) -> Target {
    if instance == "wasi:http/incoming-handler"@ && function == "handle"@ {
        Target::HttpHandler
    } else if instance.len() == 0 {
        Target::Root
    } else {
        Target::Instance
    }
}

/// Tells what an invocation of a function is answered by.
pub fn target(instance: &str, function: &str) -> (r: Target)
    ensures
        r == target_of(instance@, function@),
        r is HttpHandler <==> instance@ == "wasi:http/incoming-handler"@ && function@ == "handle"@,
        r is Root <==> instance@.len() == 0,
{
    if instance.to_owned() == "wasi:http/incoming-handler".to_owned() && function.to_owned()
        == "handle".to_owned() {
        proof {
            reveal_strlit("wasi:http/incoming-handler");
        }
        Target::HttpHandler
    } else if instance.unicode_len() == 0 {
        Target::Root
    } else {
        Target::Instance
    }
}

/// The arguments that a component is given when a function is invoked: the name of the function,
/// after that of the instance where there is one.
pub open spec fn arguments_of(instance: Seq<char>, function: Seq<char>) -> Seq<Seq<char>> {
    if instance.len() == 0 {
        seq![function]
    } else {
        seq![instance, function]
    }
}

/// Gives the arguments for an invocation of a function.
pub fn arguments(instance: &str, function: &str) -> (r: Vec<String>)
    ensures
        names_model(r@) == arguments_of(instance@, function@),
        r@.len() == 1 || r@.len() == 2,
        r@.len() == 1 <==> instance@.len() == 0,
        r@.last()@ == function@,
        r@.len() == 2 ==> r@[0]@ == instance@,
{
    let mut r: Vec<String> = Vec::new();
    if instance.unicode_len() > 0 {
        r.push(instance.to_owned());
    }
    r.push(function.to_owned());
    assert(names_model(r@) =~= arguments_of(instance@, function@));
    r
}

/// The number of parameters that are passed: no more than were received, are declared, or are
/// accepted.
pub open spec fn passed(received: nat, declared: nat, accepted: nat) -> nat {
    if received <= declared && received <= accepted {
        received
    } else if declared <= accepted {
        declared
    } else {
        accepted
    }
}

/// Takes the parameters that are passed, in order.
pub fn parameters<V>(received: Vec<V>, declared: usize, accepted: usize) -> (r: Vec<V>)
    ensures
        r@ == received@.take(passed(received@.len(), declared as nat, accepted as nat) as int),
        r@.len() <= received@.len() && r@.len() <= declared && r@.len() <= accepted,
        r@.len() == received@.len() || r@.len() == declared || r@.len() == accepted,
        forall|i: int| 0 <= i < r@.len() ==> r@[i] == received@[i],
{
    let mut r: Vec<V> = received;
    let mut n: usize = r.len();
    if declared < n {
        n = declared;
    }
    if accepted < n {
        n = accepted;
    }
    r.truncate(n);
    assert(r@ =~= received@.take(passed(received@.len(), declared as nat, accepted as nat) as int));
    r
}

/// Gives the results to be overwritten by a call: as many values as there are results, each
/// `false`.
pub fn placeholder_results(n: usize) -> (r: Vec<Val>)
    ensures
        vals_model(r@) == Seq::new(n as nat, |i: int| ValModel::Bool(false)),
        r@.len() == n,
        forall|i: int| 0 <= i < r@.len() ==> (#[trigger] r@[i]) == Val::Bool(false),
{
    let mut r: Vec<Val> = Vec::new();
    while r.len() < n
        invariant
            r@.len() <= n,
            forall|i: int| 0 <= i < r@.len() ==> (#[trigger] r@[i]) == Val::Bool(false),
        decreases n - r@.len(),
    {
        r.push(Val::Bool(false));
    }
    assert(vals_model(r@) =~= Seq::new(n as nat, |i: int| ValModel::Bool(false)));
    r
}

proof fn lemma_functions(exports: Seq<InstanceExport>, n: nat, name: Seq<char>)
    requires
        n <= exports.len(),
    ensures
        functions(exports, n).contains(name) <==> exists|i: int|
            0 <= i < n && (#[trigger] exports[i]).is_function && exports[i].name@ == name,
    decreases n,
{
    if n > 0 {
        lemma_functions(exports, (n - 1) as nat, name);
        let before = functions(exports, (n - 1) as nat);
        let after = functions(exports, n);
        if before.contains(name) {
            let k = choose|k: int| 0 <= k < before.len() && before[k] == name;
            assert(after[k] == name);
        }
        if exports[n - 1].is_function && exports[n - 1].name@ == name {
            assert(after[after.len() - 1] == name);
        }
        if after.contains(name) {
            let k = choose|k: int| 0 <= k < after.len() && after[k] == name;
            if k < before.len() {
                assert(before[k] == name);
            } else {
                assert(exports[n - 1].is_function && exports[n - 1].name@ == name);
            }
        }
    }
}

/// Whether an instance of the name exports a function of the name.
pub open spec fn exports_function(
    exports: Seq<Export>,
    instance: Seq<char>,
    function: Seq<char>,
    n: nat,
) -> bool {
    exists|i: int|
        0 <= i < n && (#[trigger] exports[i]).name@ == instance && (
        exports[i].instance matches Some(items) && exists|k: int|
            0 <= k < items@.len() && (#[trigger] items@[k]).is_function && items@[k].name@
                == function)
}

/// A function is served if and only if an instance that the component exports has it.
pub proof fn served_if_exported(
    exports: Seq<Export>,
    instance: Seq<char>,
    function: Seq<char>,
    n: nat,
)
    requires
        n <= exports.len(),
    ensures
        served(exports, n).contains((instance, function)) <==> exports_function(
            exports,
            instance,
            function,
            n,
        ),
    decreases n,
{
    if n > 0 {
        let pair = (instance, function);
        let before = served(exports, (n - 1) as nat);
        let after = served(exports, n);
        served_if_exported(exports, instance, function, (n - 1) as nat);
        let last = exports[n - 1];
        if let Some(items) = last.instance {
            lemma_functions(items@, items@.len(), function);
            let names = functions(items@, items@.len());
            let more = of_instance(last.name@, names);
            if before.contains(pair) {
                let k = choose|k: int| 0 <= k < before.len() && before[k] == pair;
                assert(after[k] == pair);
            }
            if names.contains(function) && last.name@ == instance {
                let k = choose|k: int| 0 <= k < names.len() && names[k] == function;
                assert(after[before.len() + k] == pair);
            }
            if after.contains(pair) {
                let k = choose|k: int| 0 <= k < after.len() && after[k] == pair;
                if k < before.len() {
                    assert(before[k] == pair);
                } else {
                    assert(names[k - before.len()] == function);
                    assert(last.name@ == instance);
                }
            }
        }
    }
}

/// Where the functions among the first `n` exports of an instance are.
spec fn function_positions(exports: Seq<InstanceExport>, n: nat) -> Seq<int>
    decreases n,
{
    if n == 0 {
        Seq::empty()
    } else {
        let before = function_positions(exports, (n - 1) as nat);
        if exports[n - 1].is_function {
            before.push(n - 1)
        } else {
            before
        }
    }
}

proof fn lemma_function_positions(exports: Seq<InstanceExport>, n: nat)
    requires
        n <= exports.len(),
    ensures
        function_positions(exports, n).len() == functions(exports, n).len(),
        forall|k: int|
            0 <= k < function_positions(exports, n).len() ==> {
                let j = #[trigger] function_positions(exports, n)[k];
                0 <= j < n && exports[j].is_function && functions(exports, n)[k]
                    == exports[j].name@
            },
        forall|k: int, x: int|
            0 <= k < x < function_positions(exports, n).len() ==> (#[trigger] function_positions(
                exports,
                n,
            )[k]) < (#[trigger] function_positions(exports, n)[x]),
        forall|j: int|
            0 <= j < n && (#[trigger] exports[j]).is_function ==> function_positions(
                exports,
                n,
            ).contains(j),
    decreases n,
{
    if n > 0 {
        let before = function_positions(exports, (n - 1) as nat);
        let after = function_positions(exports, n);
        lemma_function_positions(exports, (n - 1) as nat);
        assert forall|j: int| 0 <= j < n && (#[trigger] exports[j]).is_function implies
            after.contains(j) by {
            if j < n - 1 {
                let k = choose|k: int| 0 <= k < before.len() && before[k] == j;
                assert(after[k] == j);
            } else {
                assert(after[after.len() - 1] == j);
            }
        }
    }
}

/// Where the functions of the first `n` exports of a component are.
spec fn served_positions(exports: Seq<Export>, n: nat) -> Seq<(int, int)>
    decreases n,
{
    if n == 0 {
        Seq::empty()
    } else {
        let before = served_positions(exports, (n - 1) as nat);
        match exports[n - 1].instance {
            Some(items) => {
                let own = function_positions(items@, items@.len());
                before + Seq::new(own.len(), |k: int| (n - 1, own[k]))
            },
            None => before,
        }
    }
}

proof fn lemma_served_positions(exports: Seq<Export>, n: nat)
    requires
        n <= exports.len(),
    ensures
        served_positions(exports, n).len() == served(exports, n).len(),
        forall|k: int|
            0 <= k < served_positions(exports, n).len() ==> {
                let at = #[trigger] served_positions(exports, n)[k];
                &&& 0 <= at.0 < n
                &&& exports[at.0].instance matches Some(items)
                &&& 0 <= at.1 < items@.len()
                &&& items@[at.1].is_function
                &&& served(exports, n)[k] == (exports[at.0].name@, items@[at.1].name@)
            },
        forall|k: int, x: int|
            0 <= k < x < served_positions(exports, n).len() ==> {
                let a = #[trigger] served_positions(exports, n)[k];
                let b = #[trigger] served_positions(exports, n)[x];
                a.0 < b.0 || (a.0 == b.0 && a.1 < b.1)
            },
        forall|i: int, j: int|
            0 <= i < n && exports[i].instance is Some && 0 <= j < exports[i].instance->0@.len()
                && (#[trigger] exports[i].instance->0@[j]).is_function ==> served_positions(
                exports,
                n,
            ).contains((i, j)),
    decreases n,
{
    if n > 0 {
        let before = served_positions(exports, (n - 1) as nat);
        let after = served_positions(exports, n);
        lemma_served_positions(exports, (n - 1) as nat);
        if let Some(items) = exports[n - 1].instance {
            let own = function_positions(items@, items@.len());
            lemma_function_positions(items@, items@.len());
            assert forall|k: int| before.len() <= k < after.len() implies (#[trigger] after[k]) == (
            n - 1, own[k - before.len()]) && served(exports, n)[k] == (
                exports[n - 1].name@,
                items@[own[k - before.len()]].name@,
            ) && 0 <= own[k - before.len()] < items@.len()
                && items@[own[k - before.len()]].is_function by {}
            assert forall|i: int, j: int|
                0 <= i < n && exports[i].instance is Some && 0 <= j < exports[i].instance->0@.len()
                    && (#[trigger] exports[i].instance->0@[j]).is_function implies after.contains(
                (i, j),
            ) by {
                if i < n - 1 {
                    let k = choose|k: int| 0 <= k < before.len() && before[k] == (i, j);
                    assert(after[k] == (i, j));
                } else {
                    let k = choose|k: int| 0 <= k < own.len() && own[k] == j;
                    assert(after[before.len() + k] == (i, j));
                }
            }
        }
    }
}

/// What is served are the functions of the exported instances, each once and in their order: the
/// entries stand for the functions at positions that go up, and no function is without an entry.
pub proof fn served_once_each(exports: &Vec<Export>, r: Vec<Served>) -> (at: Seq<(int, int)>)
    requires
        call_ensures(served_functions, (exports,), r),
    ensures
        at.len() == r@.len(),
        forall|k: int|
            0 <= k < at.len() ==> {
                &&& 0 <= (#[trigger] at[k]).0 < exports@.len()
                &&& exports@[at[k].0].instance matches Some(items)
                &&& 0 <= at[k].1 < items@.len()
                &&& items@[at[k].1].is_function
                &&& r@[k].instance@ == exports@[at[k].0].name@
                &&& r@[k].function@ == items@[at[k].1].name@
            },
        forall|k: int, x: int|
            0 <= k < x < at.len() ==> (#[trigger] at[k]).0 < (#[trigger] at[x]).0 || (at[k].0
                == at[x].0 && at[k].1 < at[x].1),
        forall|i: int, j: int|
            0 <= i < exports@.len() && exports@[i].instance is Some && 0 <= j
                < exports@[i].instance->0@.len() && (
            #[trigger] exports@[i].instance->0@[j]).is_function ==> at.contains((i, j)),
{
    let at = served_positions(exports@, exports@.len());
    lemma_served_positions(exports@, exports@.len());
    assert(served_model(r@).len() == r@.len());
    assert forall|k: int| 0 <= k < at.len() implies (#[trigger] at[k]) == at[k] && (
        r@[k].instance@,
        r@[k].function@,
    ) == served(exports@, exports@.len())[k] by {
        assert(served_model(r@)[k] == served(exports@, exports@.len())[k]);
    }
    at
}

/// What some exports and then others have is served one after the other.
pub proof fn served_one_after_the_other(
    exports: &Vec<Export>,
    first: &Vec<Export>,
    second: &Vec<Export>,
    all: Vec<Served>,
    a: Vec<Served>,
    b: Vec<Served>,
)
    requires
        exports@ == first@ + second@,
        call_ensures(served_functions, (exports,), all),
        call_ensures(served_functions, (first,), a),
        call_ensures(served_functions, (second,), b),
    ensures
        all@.len() == a@.len() + b@.len(),
        forall|k: int|
            0 <= k < a@.len() ==> (#[trigger] all@[k]).instance@ == a@[k].instance@
                && all@[k].function@ == a@[k].function@,
        forall|k: int|
            0 <= k < b@.len() ==> (#[trigger] all@[a@.len() + k]).instance@ == b@[k].instance@
                && all@[a@.len() + k].function@ == b@[k].function@,
{
    lemma_served_concat(first@, second@, second@.len());
    lemma_served_prefix(first@, second@, first@.len());
    let sa = served_model(a@);
    let sb = served_model(b@);
    let sall = served_model(all@);
    assert(sall == sa + sb);
    assert(sa.len() == a@.len() && sb.len() == b@.len() && sall.len() == all@.len());
    assert forall|k: int| 0 <= k < a@.len() implies (#[trigger] all@[k]).instance@
        == a@[k].instance@ && all@[k].function@ == a@[k].function@ by {
        assert(sall[k] == sa[k]);
    }
    assert forall|k: int| 0 <= k < b@.len() implies (#[trigger] all@[a@.len() + k]).instance@
        == b@[k].instance@ && all@[a@.len() + k].function@ == b@[k].function@ by {
        assert(sall[a@.len() + k] == sb[k]);
    }
}

proof fn lemma_served_prefix(first: Seq<Export>, second: Seq<Export>, n: nat)
    requires
        n <= first.len(),
    ensures
        served(first + second, n) == served(first, n),
    decreases n,
{
    if n > 0 {
        lemma_served_prefix(first, second, (n - 1) as nat);
    }
}

proof fn lemma_served_concat(first: Seq<Export>, second: Seq<Export>, n: nat)
    requires
        n <= second.len(),
    ensures
        served(first + second, first.len() + n) == served(first, first.len()) + served(second, n),
    decreases n,
{
    if n == 0 {
        lemma_served_prefix(first, second, first.len());
        assert(served(first, first.len()) + served(second, 0) =~= served(first, first.len()));
    } else {
        lemma_served_concat(first, second, (n - 1) as nat);
        let last = second[n - 1];
        assert((first + second)[first.len() + n - 1] == last);
        if let Some(items) = last.instance {
            let own = of_instance(last.name@, functions(items@, items@.len()));
            let a = served(first, first.len());
            let b = served(second, (n - 1) as nat);
            assert((a + b) + own =~= a + (b + own));
        }
    }
}

/// Only the function `handle` of `wasi:http/incoming-handler` is answered by the handler of
/// requests. Any other function is looked up in the instance that the invocation names, and in the
/// component itself exactly where it names none.
pub proof fn handler_is_one_function(instance: &str, function: &str, r: Target)
    requires
        call_ensures(target, (instance, function), r),
    ensures
        instance@ == "wasi:http/incoming-handler"@ && function@ == "handle"@ ==> r is HttpHandler,
        instance@ != "wasi:http/incoming-handler"@ || function@ != "handle"@ ==> r == if instance@
            == Seq::<char>::empty() {
            Target::Root
        } else {
            Target::Instance
        },
{
    assert(instance@.len() == 0 ==> instance@ =~= Seq::<char>::empty());
    reveal_strlit("wasi:http/incoming-handler");
}

/// Functions of one instance are looked up in one place, unless one of them is the handler of
/// requests.
pub proof fn target_goes_by_instance(
    instance: &str,
    function: &str,
    other: &str,
    r: Target,
    s: Target,
)
    requires
        call_ensures(target, (instance, function), r),
        call_ensures(target, (instance, other), s),
    ensures
        r == s || (instance@ == "wasi:http/incoming-handler"@ && (function@ == "handle"@) != (
        other@ == "handle"@)),
{
}

/// The arguments end with the name of the function, and hold nothing else but the name of the
/// instance before it, where there is one.
pub proof fn arguments_are_names(instance: &str, function: &str, r: Vec<String>)
    requires
        call_ensures(arguments, (instance, function), r),
    ensures
        instance@ == Seq::<char>::empty() ==> r@.len() == 1 && r@[0]@ == function@,
        instance@ != Seq::<char>::empty() ==> r@.len() == 2 && r@[0]@ == instance@ && r@[1]@
            == function@,
{
    assert(instance@.len() == 0 ==> instance@ =~= Seq::<char>::empty());
}

/// The parameters that are passed are the first of those that were received, as many as are
/// received, declared and accepted, whichever is the least.
pub proof fn parameters_are_the_first<V>(
    received: Vec<V>,
    declared: usize,
    accepted: usize,
    r: Vec<V>,
)
    requires
        call_ensures(parameters::<V>, (received, declared, accepted), r),
    ensures
        forall|i: int|
            0 <= i < received@.len() && i < declared && i < accepted ==> i < r@.len()
                && #[trigger] r@[i] == received@[i],
        forall|i: int|
            0 <= i < r@.len() ==> 0 <= i < received@.len() && i < declared && i < accepted
                && #[trigger] r@[i] == received@[i],
{
}

} // verus!

//! Which imports of a component are polyfilled, and with what.
//!
//! A [`Polyfill`] walks the imports of a component's world. It says what is to be defined next in
//! a linker, and is told what came of it.
use vstd::prelude::*;

verus! {

/// A resource type that an instance defines.
#[derive(Debug, PartialEq, Eq)]
pub struct DynamicResourceType {
    pub instance: String,
    pub name: String,
}

/// What the definition of a type comes to.
#[derive(Debug, PartialEq, Eq)]
pub enum TypeKind {
    /// A resource, of the instance that it says.
    Resource(DynamicResourceType),
    /// Any other type.
    Other,
    /// The definition cannot be resolved.
    Unresolved,
    /// There is no definition.
    Missing,
}

/// A type of an interface.
#[derive(Debug, PartialEq, Eq)]
pub struct TypeDef {
    pub name: String,
    pub kind: TypeKind,
}

/// The functions and types of an interface.
#[derive(Debug, PartialEq, Eq)]
pub struct Interface {
    pub functions: Vec<String>,
    pub types: Vec<TypeDef>,
}

/// What a world imports.
#[derive(Debug, PartialEq, Eq)]
pub enum ImportItem {
    Interface(Interface),
    /// An interface that is not defined.
    MissingInterface,
    /// A function or a type.
    Other,
}

/// A named import of a world.
#[derive(Debug, PartialEq, Eq)]
pub struct Import {
    pub name: String,
    pub item: ImportItem,
}

/// Whether the host provides an instance itself.
pub open spec fn is_host_instance(name: Seq<char>) -> bool {
    ||| name == "wasi:cli/environment@0.2.0"@
    ||| name == "wasi:cli/exit@0.2.0"@
    ||| name == "wasi:cli/stderr@0.2.0"@
    ||| name == "wasi:cli/stdin@0.2.0"@
    ||| name == "wasi:cli/stdout@0.2.0"@
    ||| name == "wasi:cli/terminal-input@0.2.0"@
    ||| name == "wasi:cli/terminal-output@0.2.0"@
    ||| name == "wasi:cli/terminal-stderr@0.2.0"@
    ||| name == "wasi:cli/terminal-stdin@0.2.0"@
    ||| name == "wasi:cli/terminal-stdout@0.2.0"@
    ||| name == "wasi:clocks/monotonic-clock@0.2.0"@
    ||| name == "wasi:clocks/wall-clock@0.2.0"@
    ||| name == "wasi:filesystem/preopens@0.2.0"@
    ||| name == "wasi:filesystem/types@0.2.0"@
    ||| name == "wasi:http/incoming-handler@0.2.0"@
    ||| name == "wasi:http/outgoing-handler@0.2.0"@
    ||| name == "wasi:http/types@0.2.0"@
    ||| name == "wasi:io/error@0.2.0"@
    ||| name == "wasi:io/poll@0.2.0"@
    ||| name == "wasi:io/streams@0.2.0"@
    ||| name == "wasi:sockets/tcp@0.2.0"@
}

/// Whether the host provides an instance itself.
pub fn provided_by_host(name: &String) -> (r: bool)
    ensures
        r == is_host_instance(name@),
{
    *name == "wasi:cli/environment@0.2.0".to_owned()
        || *name == "wasi:cli/exit@0.2.0".to_owned()
        || *name == "wasi:cli/stderr@0.2.0".to_owned()
        || *name == "wasi:cli/stdin@0.2.0".to_owned()
        || *name == "wasi:cli/stdout@0.2.0".to_owned()
        || *name == "wasi:cli/terminal-input@0.2.0".to_owned()
        || *name == "wasi:cli/terminal-output@0.2.0".to_owned()
        || *name == "wasi:cli/terminal-stderr@0.2.0".to_owned()
        || *name == "wasi:cli/terminal-stdin@0.2.0".to_owned()
        || *name == "wasi:cli/terminal-stdout@0.2.0".to_owned()
        || *name == "wasi:clocks/monotonic-clock@0.2.0".to_owned()
        || *name == "wasi:clocks/wall-clock@0.2.0".to_owned()
        || *name == "wasi:filesystem/preopens@0.2.0".to_owned()
        || *name == "wasi:filesystem/types@0.2.0".to_owned()
        || *name == "wasi:http/incoming-handler@0.2.0".to_owned()
        || *name == "wasi:http/outgoing-handler@0.2.0".to_owned()
        || *name == "wasi:http/types@0.2.0".to_owned()
        || *name == "wasi:io/error@0.2.0".to_owned()
        || *name == "wasi:io/poll@0.2.0".to_owned()
        || *name == "wasi:io/streams@0.2.0".to_owned()
        || *name == "wasi:sockets/tcp@0.2.0".to_owned()
}

/// The host provides the instances of these names and no others.
pub proof fn host_provides(name: &String, r: bool)
    requires
        call_ensures(provided_by_host, (name,), r),
    ensures
        r <==> {
            ||| name@ == "wasi:cli/environment@0.2.0"@
            ||| name@ == "wasi:cli/exit@0.2.0"@
            ||| name@ == "wasi:cli/stderr@0.2.0"@
            ||| name@ == "wasi:cli/stdin@0.2.0"@
            ||| name@ == "wasi:cli/stdout@0.2.0"@
            ||| name@ == "wasi:cli/terminal-input@0.2.0"@
            ||| name@ == "wasi:cli/terminal-output@0.2.0"@
            ||| name@ == "wasi:cli/terminal-stderr@0.2.0"@
            ||| name@ == "wasi:cli/terminal-stdin@0.2.0"@
            ||| name@ == "wasi:cli/terminal-stdout@0.2.0"@
            ||| name@ == "wasi:clocks/monotonic-clock@0.2.0"@
            ||| name@ == "wasi:clocks/wall-clock@0.2.0"@
            ||| name@ == "wasi:filesystem/preopens@0.2.0"@
            ||| name@ == "wasi:filesystem/types@0.2.0"@
            ||| name@ == "wasi:http/incoming-handler@0.2.0"@
            ||| name@ == "wasi:http/outgoing-handler@0.2.0"@
            ||| name@ == "wasi:http/types@0.2.0"@
            ||| name@ == "wasi:io/error@0.2.0"@
            ||| name@ == "wasi:io/poll@0.2.0"@
            ||| name@ == "wasi:io/streams@0.2.0"@
            ||| name@ == "wasi:sockets/tcp@0.2.0"@
        },
{
}

/// The linker indices of resource types that have been polyfilled.
#[derive(Debug, PartialEq, Eq)]
pub struct ResourcePaths {
    entries: Vec<(DynamicResourceType, u32)>,
}

impl DynamicResourceType {
    /// The instance and the name.
    pub open spec fn key(self) -> (Seq<char>, Seq<char>) {
        (self.instance@, self.name@)
    }

    /// Whether two types are the same.
    fn same(&self, other: &DynamicResourceType) -> (r: bool)
        ensures
            r == (self.key() == other.key()),
    {
        self.instance == other.instance && self.name == other.name
    }

    /// A copy of the type.
    fn copy(&self) -> (r: DynamicResourceType)
        ensures
            r.key() == self.key(),
    {
        DynamicResourceType { instance: self.instance.clone(), name: self.name.clone() }
    }
}

impl ResourcePaths {
    /// No type is there twice.
    #[verifier::type_invariant]
    spec fn inv(self) -> bool {
        forall|i: int, j: int|
            0 <= i < j < self.entries@.len() ==> (#[trigger] self.entries@[i]).0.key() != (
            #[trigger] self.entries@[j]).0.key()
    }

    /// The index of each type.
    pub closed spec fn map(self) -> Map<(Seq<char>, Seq<char>), u32> {
        Map::new(
            |key: (Seq<char>, Seq<char>)|
                exists|i: int|
                    0 <= i < self.entries@.len() && (#[trigger] self.entries@[i]).0.key() == key,
            |key: (Seq<char>, Seq<char>)|
                self.entries@[choose|i: int|
                    0 <= i < self.entries@.len() && (#[trigger] self.entries@[i]).0.key()
                        == key].1,
        )
    }

    /// No indices.
    pub fn new() -> (r: ResourcePaths)
        ensures
            r.map() == Map::<(Seq<char>, Seq<char>), u32>::empty(),
    {
        let r: ResourcePaths = ResourcePaths { entries: Vec::new() };
        assert(r.map() =~= Map::<(Seq<char>, Seq<char>), u32>::empty());
        r
    }

    /// Where the entry of a type is.
    fn find(&self, ty: &DynamicResourceType) -> (r: Option<usize>)
        ensures
            match r {
                Some(i) => i < self.entries@.len() && self.entries@[i as int].0.key() == ty.key(),
                None => forall|i: int|
                    0 <= i < self.entries@.len() ==> (#[trigger] self.entries@[i]).0.key()
                        != ty.key(),
            },
    {
        let mut i: usize = 0;
        while i < self.entries.len()
            invariant
                i <= self.entries@.len(),
                forall|j: int|
                    0 <= j < i ==> (#[trigger] self.entries@[j]).0.key() != ty.key(),
            decreases self.entries@.len() - i,
        {
            if self.entries[i].0.same(ty) {
                return Some(i);
            }
            i = i + 1;
        }
        None
    }

    /// The indices with that of a type, in place of any that it had.
    pub fn insert(self, ty: DynamicResourceType, index: u32) -> (r: ResourcePaths)
        ensures
            r.map() == self.map().insert(ty.key(), index),
    {
        proof {
            use_type_invariant(&self);
        }
        let found: Option<usize> = self.find(&ty);
        let mut entries: Vec<(DynamicResourceType, u32)> = self.entries;
        let ghost key = ty.key();
        match found {
            Some(i) => {
                entries.set(i, (ty, index));
                assert(entries@[i as int].0.key() == key);
            },
            None => {
                entries.push((ty, index));
                assert(entries@[entries@.len() - 1].0.key() == key);
            },
        }
        assert forall|i: int, j: int| 0 <= i < j < entries@.len() implies (
        #[trigger] entries@[i]).0.key() != (#[trigger] entries@[j]).0.key() by {
            if i < self.entries@.len() && j < self.entries@.len() {
                assert(self.entries@[i].0.key() != self.entries@[j].0.key());
            }
        }
        let r: ResourcePaths = ResourcePaths { entries };
        proof {
            lemma_insert(self, r, key, index);
        }
        r
    }

    /// The index of a type.
    pub fn get(&self, ty: &DynamicResourceType) -> (r: Option<u32>)
        ensures
            r == self.map().get(ty.key()),
    {
        proof {
            use_type_invariant(self);
        }
        match self.find(ty) {
            Some(i) => Some(self.entries[i].1),
            None => None,
        }
    }
}

/// An entry added, or changed, is the only difference between the maps.
proof fn lemma_insert(
    before: ResourcePaths,
    after: ResourcePaths,
    key: (Seq<char>, Seq<char>),
    index: u32,
)
    requires
        before.inv(),
        after.inv(),
        before.entries@.len() <= after.entries@.len(),
        forall|i: int|
            0 <= i < before.entries@.len() ==> (#[trigger] after.entries@[i]).0.key()
                == before.entries@[i].0.key() && (before.entries@[i].0.key() != key
                ==> after.entries@[i].1 == before.entries@[i].1),
        forall|i: int|
            before.entries@.len() <= i < after.entries@.len() ==> (
            #[trigger] after.entries@[i]).0.key() == key,
        exists|i: int|
            0 <= i < after.entries@.len() && (#[trigger] after.entries@[i]).0.key() == key
                && after.entries@[i].1 == index,
    ensures
        after.map() == before.map().insert(key, index),
{
    let at = choose|i: int|
        0 <= i < after.entries@.len() && (#[trigger] after.entries@[i]).0.key() == key
            && after.entries@[i].1 == index;
    assert forall|k: (Seq<char>, Seq<char>)| after.map().dom().contains(k)
        <==> before.map().insert(key, index).dom().contains(k) by {
        if before.map().dom().contains(k) {
            let i = choose|i: int|
                0 <= i < before.entries@.len() && (#[trigger] before.entries@[i]).0.key() == k;
            assert(after.entries@[i].0.key() == k);
        }
        if after.map().dom().contains(k) && k != key {
            let i = choose|i: int|
                0 <= i < after.entries@.len() && (#[trigger] after.entries@[i]).0.key() == k;
            assert(before.entries@[i].0.key() == k);
        }
    }
    assert forall|k: (Seq<char>, Seq<char>)| after.map().dom().contains(k) implies after.map()[k]
        == before.map().insert(key, index)[k] by {
        let i = choose|i: int|
            0 <= i < after.entries@.len() && (#[trigger] after.entries@[i]).0.key() == k;
        if k == key {
            assert(i == at);
        } else {
            let j = choose|j: int|
                0 <= j < before.entries@.len() && (#[trigger] before.entries@[j]).0.key() == k;
            assert(before.entries@[i].0.key() == k);
            assert(i == j);
        }
    }
    assert(after.map() =~= before.map().insert(key, index));
}

/// An index that is inserted is what a type has from then on, and every type of another instance
/// or of another name has what it had.
pub proof fn inserted_index_is_found(
    paths: ResourcePaths,
    ty: DynamicResourceType,
    index: u32,
    after: ResourcePaths,
    other: &DynamicResourceType,
    found_before: Option<u32>,
    found: Option<u32>,
)
    requires
        call_ensures(ResourcePaths::insert, (paths, ty, index), after),
        call_ensures(ResourcePaths::get, (&paths, other), found_before),
        call_ensures(ResourcePaths::get, (&after, other), found),
    ensures
        found == if other.instance@ == ty.instance@ && other.name@ == ty.name@ {
            Some(index)
        } else {
            found_before
        },
{
}

/// At first no type has an index.
pub proof fn no_index_is_found_at_first(
    paths: ResourcePaths,
    ty: &DynamicResourceType,
    found: Option<u32>,
)
    requires
        call_ensures(ResourcePaths::new, (), paths),
        call_ensures(ResourcePaths::get, (&paths, ty), found),
    ensures
        found is None,
{
}

/// What is to be defined in the linker next.
#[derive(Debug, Clone, Copy, PartialEq, Eq, Structural)]
pub enum Step {
    /// The instance of an import.
    Instance(usize),
    /// A function of an import, in its instance.
    Function(usize, usize),
    /// A type of an import, which is a resource, in its instance.
    Resource(usize, usize),
    /// Nothing is left.
    Finished,
}

/// Whether an import is one to be polyfilled.
pub open spec fn is_polyfilled(import: Import) -> bool {
    !is_host_instance(import.name@) && !(import.item is Other)
}

/// Whether a type is a resource that the instance of the name defines.
pub open spec fn is_own_resource(ty: TypeDef, instance: Seq<char>) -> bool {
    ty.kind matches TypeKind::Resource(resource) && resource.instance@ == instance
}

/// The step at the first import to be polyfilled from `i` on.
pub open spec fn import_from(imports: Seq<Import>, i: int) -> Step
    decreases imports.len() - i,
{
    if i >= imports.len() {
        Step::Finished
    } else if is_polyfilled(imports[i]) {
        Step::Instance(i as usize)
    } else {
        import_from(imports, i + 1)
    }
}

/// The step at the first resource of import `i` from type `k` on, or at the next import.
pub open spec fn resource_from(imports: Seq<Import>, i: int, k: int) -> Step
    decreases imports[i].item->Interface_0.types@.len() - k,
{
    let types = imports[i].item->Interface_0.types@;
    if k >= types.len() {
        import_from(imports, i + 1)
    } else if is_own_resource(types[k], imports[i].name@) {
        Step::Resource(i as usize, k as usize)
    } else {
        resource_from(imports, i, k + 1)
    }
}

/// The step at function `k` of import `i`, or at its first resource.
pub open spec fn function_from(imports: Seq<Import>, i: int, k: int) -> Step {
    if k < imports[i].item->Interface_0.functions@.len() {
        Step::Function(i as usize, k as usize)
    } else {
        resource_from(imports, i, 0)
    }
}

/// The step after an instance that could be defined, or could not.
///
/// Where it could not, or where there is no interface to define in it, the import is left.
pub open spec fn after_instance(imports: Seq<Import>, i: int, defined: bool) -> Step {
    if defined && imports[i].item is Interface {
        function_from(imports, i, 0)
    } else {
        import_from(imports, i + 1)
    }
}

/// Whether a step is one that is taken for the imports.
pub open spec fn is_step(imports: Seq<Import>, step: Step) -> bool {
    match step {
        Step::Instance(i) => i < imports.len() && is_polyfilled(imports[i as int]),
        Step::Function(i, k) => {
            &&& i < imports.len()
            &&& is_polyfilled(imports[i as int])
            &&& imports[i as int].item matches ImportItem::Interface(interface)
            &&& k < interface.functions@.len()
        },
        Step::Resource(i, k) => {
            &&& i < imports.len()
            &&& is_polyfilled(imports[i as int])
            &&& imports[i as int].item matches ImportItem::Interface(interface)
            &&& k < interface.types@.len()
            &&& is_own_resource(interface.types@[k as int], imports[i as int].name@)
        },
        Step::Finished => true,
    }
}

/// Finds the first import to be polyfilled.
fn find_import(imports: &Vec<Import>, start: usize) -> (r: Step)
    requires
        start <= imports@.len(),
    ensures
        r == import_from(imports@, start as int),
        is_step(imports@, r),
{
    let mut i: usize = start;
    while i < imports.len()
        invariant
            start <= i <= imports@.len(),
            import_from(imports@, i as int) == import_from(imports@, start as int),
        decreases imports@.len() - i,
    {
        let other: bool = match imports[i].item {
            ImportItem::Other => true,
            _ => false,
        };
        if !provided_by_host(&imports[i].name) && !other {
            return Step::Instance(i);
        }
        i = i + 1;
    }
    Step::Finished
}

/// Finds the first resource of an import, or the next import.
fn find_resource(imports: &Vec<Import>, i: usize, start: usize) -> (r: Step)
    requires
        i < imports@.len(),
        is_polyfilled(imports@[i as int]),
        imports@[i as int].item is Interface,
    ensures
        r == resource_from(imports@, i as int, start as int),
        is_step(imports@, r),
{
    let types: &Vec<TypeDef> = match &imports[i].item {
        ImportItem::Interface(interface) => &interface.types,
        _ => return Step::Finished,
    };
    let mut k: usize = start;
    while k < types.len()
        invariant
            i < imports@.len(),
            is_polyfilled(imports@[i as int]),
            imports@[i as int].item is Interface,
            *types == imports@[i as int].item->Interface_0.types,
            start <= k,
            resource_from(imports@, i as int, k as int) == resource_from(
                imports@,
                i as int,
                start as int,
            ),
        decreases types@.len() - k,
    {
        let own: bool = match &types[k].kind {
            TypeKind::Resource(resource) => resource.instance == imports[i].name,
            _ => false,
        };
        if own {
            return Step::Resource(i, k);
        }
        k = k + 1;
    }
    assert(i < imports.len());
    find_import(imports, i + 1)
}

/// Finds a function of an import, or its first resource.
fn find_function(imports: &Vec<Import>, i: usize, k: usize) -> (r: Step)
    requires
        i < imports@.len(),
        is_polyfilled(imports@[i as int]),
        imports@[i as int].item is Interface,
    ensures
        r == function_from(imports@, i as int, k as int),
        is_step(imports@, r),
{
    let n: usize = match &imports[i].item {
        ImportItem::Interface(interface) => interface.functions.len(),
        _ => 0,
    };
    if k < n {
        Step::Function(i, k)
    } else {
        find_resource(imports, i, 0)
    }
}

/// The way through the imports of a world.
#[derive(Debug, PartialEq, Eq)]
pub struct Polyfill<'a> {
    imports: &'a Vec<Import>,
    step: Step,
    paths: ResourcePaths,
}

impl<'a> Polyfill<'a> {
    #[verifier::type_invariant]
    spec fn inv(self) -> bool {
        is_step(self.imports@, self.step)
    }

    /// The imports.
    pub closed spec fn imports(self) -> Seq<Import> {
        self.imports@
    }

    /// What is to be defined next.
    pub closed spec fn current(self) -> Step {
        self.step
    }

    /// The indices of the resource types that have been polyfilled.
    pub closed spec fn paths(self) -> Map<(Seq<char>, Seq<char>), u32> {
        self.paths.map()
    }

    /// Starts at the first import that is to be polyfilled.
    pub fn new(imports: &'a Vec<Import>) -> (r: Polyfill<'a>)
        ensures
            r.imports() == imports@,
            r.current() == import_from(imports@, 0),
            r.paths() == Map::<(Seq<char>, Seq<char>), u32>::empty(),
    {
        Polyfill { imports, step: find_import(imports, 0), paths: ResourcePaths::new() }
    }

    /// What is to be defined next.
    pub fn step(&self) -> (r: Step)
        ensures
            r == self.current(),
            is_step(self.imports(), r),
    {
        proof {
            use_type_invariant(self);
        }
        self.step
    }

    /// Goes on after an instance that could be defined, or could not.
    pub fn instance(self, defined: bool) -> (r: Polyfill<'a>)
        requires
            self.current() is Instance,
        ensures
            r.imports() == self.imports(),
            r.current() == after_instance(
                self.imports(),
                self.current()->Instance_0 as int,
                defined,
            ),
            r.paths() == self.paths(),
    {
        proof {
            use_type_invariant(&self);
        }
        let step: Step = match self.step {
            Step::Instance(i) => {
                assert(i < self.imports.len());
                let interface: bool = match &self.imports[i].item {
                    ImportItem::Interface(_) => true,
                    _ => false,
                };
                if defined && interface {
                    find_function(self.imports, i, 0)
                } else {
                    find_import(self.imports, i + 1)
                }
            },
            step => step,
        };
        Polyfill { imports: self.imports, step, paths: self.paths }
    }

    /// Goes on after a function, whether it could be defined or not.
    pub fn function(self) -> (r: Polyfill<'a>)
        requires
            self.current() is Function,
        ensures
            r.imports() == self.imports(),
            r.current() == function_from(
                self.imports(),
                self.current()->Function_0 as int,
                self.current()->Function_1 + 1,
            ),
            r.paths() == self.paths(),
    {
        proof {
            use_type_invariant(&self);
        }
        let step: Step = match self.step {
            Step::Function(i, k) => {
                assert(k < self.imports@[i as int].item->Interface_0.functions.len());
                find_function(self.imports, i, k + 1)
            },
            step => step,
        };
        Polyfill { imports: self.imports, step, paths: self.paths }
    }

    /// Goes on after a resource, with its index where it could be defined.
    pub fn resource(self, index: Option<u32>) -> (r: Polyfill<'a>)
        requires
            self.current() is Resource,
        ensures
            r.imports() == self.imports(),
            r.current() == resource_from(
                self.imports(),
                self.current()->Resource_0 as int,
                self.current()->Resource_1 + 1,
            ),
            r.paths() == next_paths(self.imports(), self.current(), index, self.paths()),
    {
        proof {
            use_type_invariant(&self);
        }
        match self.step {
            Step::Resource(i, k) => {
                let imports: &'a Vec<Import> = self.imports;
                assert(k < imports@[i as int].item->Interface_0.types.len());
                let mut paths: ResourcePaths = self.paths;
                if let Some(index) = index {
                    if let ImportItem::Interface(interface) = &imports[i].item {
                        if let TypeKind::Resource(ty) = &interface.types[k].kind {
                            paths = paths.insert(ty.copy(), index);
                        }
                    }
                }
                Polyfill { imports, step: find_resource(imports, i, k + 1), paths }
            },
            step => Polyfill { imports: self.imports, step, paths: self.paths },
        }
    }

    /// Takes the indices.
    pub fn into_paths(self) -> (r: ResourcePaths)
        ensures
            r.map() == self.paths(),
    {
        self.paths
    }
}

/// What the resource that type `k` of import `i` is, is known by.
pub open spec fn resource_key(imports: Seq<Import>, i: int, k: int) -> (Seq<char>, Seq<char>) {
    imports[i].item->Interface_0.types@[k].kind->Resource_0.key()
}

/// The indices after a step: with that of the resource, in place of any that it had, where the
/// step is at a resource that could be defined.
pub open spec fn next_paths(
    imports: Seq<Import>,
    step: Step,
    index: Option<u32>,
    paths: Map<(Seq<char>, Seq<char>), u32>,
) -> Map<(Seq<char>, Seq<char>), u32> {
    match (step, index) {
        (Step::Resource(i, k), Some(index)) => paths.insert(
            resource_key(imports, i as int, k as int),
            index,
        ),
        _ => paths,
    }
}

/// Every import, function and resource between one step and the next is one that is not
/// polyfilled: none is passed over.
pub proof fn nothing_is_passed_over(imports: Seq<Import>, i: int)
    requires
        0 <= i,
        imports.len() <= usize::MAX,
    ensures
        match import_from(imports, i) {
            Step::Instance(j) => i <= j < imports.len() && is_polyfilled(imports[j as int])
                && forall|x: int| i <= x < j ==> !is_polyfilled(#[trigger] imports[x]),
            Step::Finished => forall|x: int|
                i <= x < imports.len() ==> !is_polyfilled(#[trigger] imports[x]),
            _ => false,
        },
    decreases imports.len() - i,
{
    if i < imports.len() && !is_polyfilled(imports[i]) {
        nothing_is_passed_over(imports, i + 1);
    }
}

/// Every type of an import between one resource and the next is one that is not polyfilled, and
/// the next import is only gone on to when no resource is left.
pub proof fn no_resource_is_passed_over(imports: Seq<Import>, i: int, k: int)
    requires
        0 <= i < imports.len(),
        0 <= k,
        imports.len() <= usize::MAX,
        imports[i].item is Interface,
    ensures
        ({
            let types = imports[i].item->Interface_0.types@;
            let step = resource_from(imports, i, k);
            if step == import_from(imports, i + 1) {
                forall|x: int|
                    k <= x < types.len() ==> !is_own_resource(#[trigger] types[x], imports[i].name@)
            } else {
                step matches Step::Resource(j, found) && j == i && k <= found < types.len()
                    && is_own_resource(types[found as int], imports[i].name@) && forall|x: int|
                    k <= x < found ==> !is_own_resource(#[trigger] types[x], imports[i].name@)
            }
        }),
    decreases imports[i].item->Interface_0.types@.len() - k,
{
    let types = imports[i].item->Interface_0.types@;
    assert(types.len() == imports[i].item->Interface_0.types.len());
    nothing_is_passed_over(imports, i + 1);
    if k < types.len() && !is_own_resource(types[k], imports[i].name@) {
        no_resource_is_passed_over(imports, i, k + 1);
    }
}

/// The step after another, where an instance could be defined or could not.
pub open spec fn next_step(imports: Seq<Import>, step: Step, defined: bool) -> Step {
    match step {
        Step::Instance(i) => after_instance(imports, i as int, defined),
        Step::Function(i, k) => function_from(imports, i as int, k + 1),
        Step::Resource(i, k) => resource_from(imports, i as int, k + 1),
        Step::Finished => Step::Finished,
    }
}

/// How far along the way through the imports a step is.
pub open spec fn position(imports: Seq<Import>, step: Step) -> (int, int, int) {
    match step {
        Step::Instance(i) => (i as int, 0, 0),
        Step::Function(i, k) => (i as int, 1, k as int),
        Step::Resource(i, k) => (i as int, 2, k as int),
        Step::Finished => (imports.len() as int, 0, 0),
    }
}

/// Whether a position is before another.
pub open spec fn is_before(a: (int, int, int), b: (int, int, int)) -> bool {
    a.0 < b.0 || (a.0 == b.0 && (a.1 < b.1 || (a.1 == b.1 && a.2 < b.2)))
}

/// Whatever comes of a step, the next is further along, so the way through the imports ends.
pub proof fn steps_go_forward(imports: Seq<Import>, step: Step, defined: bool)
    requires
        imports.len() <= usize::MAX,
        is_step(imports, step),
    ensures
        step is Finished || is_before(
            position(imports, step),
            position(imports, next_step(imports, step, defined)),
        ),
{
    match step {
        Step::Instance(i) => {
            nothing_is_passed_over(imports, i + 1);
            if imports[i as int].item is Interface {
                no_resource_is_passed_over(imports, i as int, 0);
            }
        },
        Step::Function(i, k) => {
            assert(k < imports[i as int].item->Interface_0.functions.len());
            nothing_is_passed_over(imports, i + 1);
            no_resource_is_passed_over(imports, i as int, 0);
        },
        Step::Resource(i, k) => {
            nothing_is_passed_over(imports, i + 1);
            no_resource_is_passed_over(imports, i as int, k + 1);
        },
        Step::Finished => {},
    }
}

/// Whatever is called for next comes after what was called for before, so a walk ends.
pub proof fn a_walk_goes_forward(
    walk: Polyfill,
    step: Step,
    defined: bool,
    index: Option<u32>,
    next: Polyfill,
    after: Step,
)
    requires
        call_ensures(Polyfill::step, (&walk,), step),
        match step {
            Step::Instance(_) => call_ensures(Polyfill::instance, (walk, defined), next),
            Step::Function(_, _) => call_ensures(Polyfill::function, (walk,), next),
            Step::Resource(_, _) => call_ensures(Polyfill::resource, (walk, index), next),
            Step::Finished => false,
        },
        call_ensures(Polyfill::step, (&next,), after),
    ensures
        match (step, after) {
            (_, Step::Finished) => true,
            (Step::Instance(a), Step::Instance(b)) => a < b,
            (Step::Instance(a), Step::Function(b, k)) => a == b && k == 0,
            (Step::Instance(a), Step::Resource(b, _)) => a == b,
            (Step::Function(a, _), Step::Instance(b)) => a < b,
            (Step::Function(a, j), Step::Function(b, k)) => a == b && k == j + 1,
            (Step::Function(a, _), Step::Resource(b, _)) => a == b,
            (Step::Resource(a, _), Step::Instance(b)) => a < b,
            (Step::Resource(_, _), Step::Function(_, _)) => false,
            (Step::Resource(a, j), Step::Resource(b, k)) => a == b && j < k,
            (Step::Finished, _) => false,
        },
{
    assert(walk.imports.len() == walk.imports@.len());
    let imports = walk.imports();
    match step {
        Step::Instance(i) => {
            nothing_is_passed_over(imports, i + 1);
            if imports[i as int].item is Interface {
                no_resource_is_passed_over(imports, i as int, 0);
            }
        },
        Step::Function(i, k) => {
            assert(k < imports[i as int].item->Interface_0.functions.len());
            assert(imports[i as int].item->Interface_0.functions.len()
                == imports[i as int].item->Interface_0.functions@.len());
            nothing_is_passed_over(imports, i + 1);
            no_resource_is_passed_over(imports, i as int, 0);
        },
        Step::Resource(i, k) => {
            nothing_is_passed_over(imports, i + 1);
            no_resource_is_passed_over(imports, i as int, k + 1);
        },
        Step::Finished => {},
    }
}

/// What comes after a step is a step too.
pub proof fn lemma_next_is_step(imports: Seq<Import>, step: Step, defined: bool)
    requires
        imports.len() <= usize::MAX,
        is_step(imports, step),
    ensures
        is_step(imports, next_step(imports, step, defined)),
{
    match step {
        Step::Instance(i) => {
            nothing_is_passed_over(imports, i + 1);
            if imports[i as int].item is Interface {
                assert(imports[i as int].item->Interface_0.functions.len()
                    == imports[i as int].item->Interface_0.functions@.len());
                no_resource_is_passed_over(imports, i as int, 0);
            }
        },
        Step::Function(i, k) => {
            assert(k < imports[i as int].item->Interface_0.functions.len());
            nothing_is_passed_over(imports, i + 1);
            no_resource_is_passed_over(imports, i as int, 0);
        },
        Step::Resource(i, k) => {
            nothing_is_passed_over(imports, i + 1);
            no_resource_is_passed_over(imports, i as int, k + 1);
        },
        Step::Finished => {},
    }
}

/// What is left of the import of a step after it.
pub open spec fn left_of_import(imports: Seq<Import>, step: Step) -> (int, int) {
    match step {
        Step::Instance(_) => (2, 0),
        Step::Function(i, k) => (1, imports[i as int].item->Interface_0.functions@.len() - k),
        Step::Resource(i, k) => (0, imports[i as int].item->Interface_0.types@.len() - k),
        Step::Finished => (0, 0),
    }
}

/// The steps that are taken from a step on, where `defined` says which instances can be defined.
pub open spec fn steps_from(
    imports: Seq<Import>,
    defined: spec_fn(int) -> bool,
    step: Step,
) -> Seq<Step>
    decreases
            imports.len() - position(imports, step).0,
            left_of_import(imports, step).0,
            left_of_import(imports, step).1,
    when imports.len() <= usize::MAX && is_step(imports, step)
{
    proof {
        steps_go_forward(imports, step, defined(position(imports, step).0));
        lemma_next_is_step(imports, step, defined(position(imports, step).0));
    }
    if step is Finished {
        Seq::empty()
    } else {
        seq![step] + steps_from(
            imports,
            defined,
            next_step(imports, step, defined(position(imports, step).0)),
        )
    }
}

/// A step for each function of an import, from function `k` on.
pub open spec fn function_steps(imports: Seq<Import>, i: int, k: int) -> Seq<Step>
    decreases imports[i].item->Interface_0.functions@.len() - k,
{
    if k >= imports[i].item->Interface_0.functions@.len() {
        Seq::empty()
    } else {
        seq![Step::Function(i as usize, k as usize)] + function_steps(imports, i, k + 1)
    }
}

/// A step for each resource that an import defines, from type `k` on.
pub open spec fn resource_steps(imports: Seq<Import>, i: int, k: int) -> Seq<Step>
    decreases imports[i].item->Interface_0.types@.len() - k,
{
    let types = imports[i].item->Interface_0.types@;
    if k >= types.len() {
        Seq::empty()
    } else if is_own_resource(types[k], imports[i].name@) {
        seq![Step::Resource(i as usize, k as usize)] + resource_steps(imports, i, k + 1)
    } else {
        resource_steps(imports, i, k + 1)
    }
}

/// The steps for each import that is polyfilled, from import `i` on: its instance and, where that
/// can be defined and there is an interface, the functions and then the resources of that.
pub open spec fn import_steps(
    imports: Seq<Import>,
    defined: spec_fn(int) -> bool,
    i: int,
) -> Seq<Step>
    decreases imports.len() - i,
{
    if i >= imports.len() {
        Seq::empty()
    } else if !is_polyfilled(imports[i]) {
        import_steps(imports, defined, i + 1)
    } else if defined(i) && imports[i].item is Interface {
        seq![Step::Instance(i as usize)] + (function_steps(imports, i, 0) + (resource_steps(
            imports,
            i,
            0,
        ) + import_steps(imports, defined, i + 1)))
    } else {
        seq![Step::Instance(i as usize)] + import_steps(imports, defined, i + 1)
    }
}

/// The steps from one on are that step and the steps from the next on.
proof fn lemma_steps_from(imports: Seq<Import>, defined: spec_fn(int) -> bool, step: Step)
    requires
        imports.len() <= usize::MAX,
        is_step(imports, step),
        !(step is Finished),
    ensures
        steps_from(imports, defined, step) == seq![step] + steps_from(
            imports,
            defined,
            next_step(imports, step, defined(position(imports, step).0)),
        ),
{
    lemma_next_is_step(imports, step, defined(position(imports, step).0));
}

proof fn lemma_resource_steps(
    imports: Seq<Import>,
    defined: spec_fn(int) -> bool,
    i: int,
    k: int,
)
    requires
        0 <= i < imports.len() <= usize::MAX,
        is_polyfilled(imports[i]),
        imports[i].item is Interface,
        0 <= k,
    ensures
        steps_from(imports, defined, resource_from(imports, i, k)) == resource_steps(imports, i, k)
            + import_steps(imports, defined, i + 1),
    decreases imports.len() - i, 0nat, imports[i].item->Interface_0.types@.len() - k,
{
    let types = imports[i].item->Interface_0.types@;
    assert(types.len() == imports[i].item->Interface_0.types.len());
    let rest = import_steps(imports, defined, i + 1);
    if k >= types.len() {
        every_step_is_taken(imports, defined, i + 1);
        assert(Seq::<Step>::empty() + rest =~= rest);
    } else {
        lemma_resource_steps(imports, defined, i, k + 1);
        if is_own_resource(types[k], imports[i].name@) {
            let step = Step::Resource(i as usize, k as usize);
            let more = resource_steps(imports, i, k + 1);
            lemma_steps_from(imports, defined, step);
            assert(seq![step] + (more + rest) =~= (seq![step] + more) + rest);
        }
    }
}

proof fn lemma_function_steps(
    imports: Seq<Import>,
    defined: spec_fn(int) -> bool,
    i: int,
    k: int,
)
    requires
        0 <= i < imports.len() <= usize::MAX,
        is_polyfilled(imports[i]),
        imports[i].item is Interface,
        0 <= k,
    ensures
        steps_from(imports, defined, function_from(imports, i, k)) == function_steps(imports, i, k)
            + (resource_steps(imports, i, 0) + import_steps(imports, defined, i + 1)),
    decreases imports.len() - i, 1nat, imports[i].item->Interface_0.functions@.len() - k,
{
    let functions = imports[i].item->Interface_0.functions@;
    assert(functions.len() == imports[i].item->Interface_0.functions.len());
    let rest = resource_steps(imports, i, 0) + import_steps(imports, defined, i + 1);
    if k >= functions.len() {
        lemma_resource_steps(imports, defined, i, 0);
        assert(Seq::<Step>::empty() + rest =~= rest);
    } else {
        lemma_function_steps(imports, defined, i, k + 1);
        let step = Step::Function(i as usize, k as usize);
        let more = function_steps(imports, i, k + 1);
        lemma_steps_from(imports, defined, step);
        assert(seq![step] + (more + rest) =~= (seq![step] + more) + rest);
    }
}

/// The steps that are taken, whichever instances can be defined, are those that the imports call
/// for, in order: none is left out and none is added.
pub proof fn every_step_is_taken(imports: Seq<Import>, defined: spec_fn(int) -> bool, i: int)
    requires
        0 <= i,
        imports.len() <= usize::MAX,
    ensures
        steps_from(imports, defined, import_from(imports, i)) == import_steps(imports, defined, i),
    decreases imports.len() - i, 2nat, 0nat,
{
    if i >= imports.len() {
        assert(is_step(imports, Step::Finished));
    } else if !is_polyfilled(imports[i]) {
        every_step_is_taken(imports, defined, i + 1);
    } else {
        lemma_steps_from(imports, defined, Step::Instance(i as usize));
        if defined(i) && imports[i].item is Interface {
            lemma_function_steps(imports, defined, i, 0);
        } else {
            every_step_is_taken(imports, defined, i + 1);
        }
    }
}

/// Why a call of a polyfilled function fails.
#[derive(Debug, Clone, Copy, PartialEq, Eq, Structural)]
pub enum CallError {
    /// A parameter could not be converted.
    Params,
    /// Calls are not supported.
    Unsupported,
    /// The component does not import the instance.
    ImportNotFound,
    /// What the component imports is not an instance.
    NotInstance,
    /// The instance does not export the function.
    NotExported,
    /// What the instance exports is not a function.
    NotFunction,
    /// There are more results than there is room for.
    InvalidResults,
}

/// What a component imports, or an instance exports, under a name.
#[derive(Debug, Clone, Copy, PartialEq, Eq, Structural)]
pub enum ItemKind {
    Instance,
    Function,
    Other,
}

/// Calls a function whose parameters could be converted, or could not.
pub fn call(params_converted: bool) -> (r: Result<(), CallError>)
    ensures
        r == Err::<(), CallError>(
            if params_converted {
                CallError::Unsupported
            } else {
                CallError::Params
            },
        ),
{
    if params_converted {
        Err(CallError::Unsupported)
    } else {
        Err(CallError::Params)
    }
}

/// Checks what the component imports under the name of the instance.
pub fn imported_instance(item: Option<ItemKind>) -> (r: Result<(), CallError>)
    ensures
        r == match item {
            None => Err::<(), CallError>(CallError::ImportNotFound),
            Some(ItemKind::Instance) => Ok(()),
            Some(_) => Err(CallError::NotInstance),
        },
{
    match item {
        None => Err(CallError::ImportNotFound),
        Some(ItemKind::Instance) => Ok(()),
        Some(_) => Err(CallError::NotInstance),
    }
}

/// Checks what the instance exports under the name of the function.
pub fn exported_function(item: Option<ItemKind>) -> (r: Result<(), CallError>)
    ensures
        r == match item {
            None => Err::<(), CallError>(CallError::NotExported),
            Some(ItemKind::Function) => Ok(()),
            Some(_) => Err(CallError::NotFunction),
        },
{
    match item {
        None => Err(CallError::NotExported),
        Some(ItemKind::Function) => Ok(()),
        Some(_) => Err(CallError::NotFunction),
    }
}

/// Puts the values in the place of the results, as many as there are.
///
/// Where there are more values than results, as many as fit are put there before that is found.
pub fn store_results<V>(values: Vec<V>, results: &mut Vec<V>) -> (r: Result<(), CallError>)
    ensures
        r == if values@.len() <= old(results)@.len() {
            Ok::<(), CallError>(())
        } else {
            Err(CallError::InvalidResults)
        },
        final(results)@ == if values@.len() <= old(results)@.len() {
            values@ + old(results)@.skip(values@.len() as int)
        } else {
            values@.take(old(results)@.len() as int)
        },
        final(results)@.len() == old(results)@.len(),
        forall|i: int|
            0 <= i < old(results)@.len() ==> (#[trigger] final(results)@[i]) == if i
                < values@.len() {
                values@[i]
            } else {
                old(results)@[i]
            },
{
    let mut i: usize = 0;
    assert(results@ =~= values@.take(0) + old(results)@.skip(0));
    for value in it: values.into_iter()
        invariant
            it.seq() == values@,
            i == it.index(),
            i <= old(results)@.len(),
            results@ == values@.take(i as int) + old(results)@.skip(i as int),
    {
        if i >= results.len() {
            assert(results@ =~= values@.take(i as int));
            return Err(CallError::InvalidResults);
        }
        results.set(i, value);
        i = i + 1;
        assert(results@ =~= values@.take(i as int) + old(results)@.skip(i as int));
    }
    assert(values@.take(i as int) =~= values@);
    Ok(())
}

/// No call of a polyfilled function succeeds, and one whose parameters could not be converted says
/// so.
pub proof fn calls_fail(params_converted: bool, r: Result<(), CallError>)
    requires
        call_ensures(call, (params_converted,), r),
    ensures
        r is Err,
        r->Err_0 is Params <==> !params_converted,
        r->Err_0 is Unsupported <==> params_converted,
{
}

/// What a component imports has to be there and to be an instance, and what that exports has to be
/// there and to be a function.
pub proof fn functions_are_looked_up(
    import: Option<ItemKind>,
    export: Option<ItemKind>,
    r: Result<(), CallError>,
    s: Result<(), CallError>,
)
    requires
        call_ensures(imported_instance, (import,), r),
        call_ensures(exported_function, (export,), s),
    ensures
        r is Ok <==> import is Some && import->0 is Instance,
        r == Err::<(), CallError>(CallError::ImportNotFound) <==> import is None,
        r is Err && import is Some ==> r == Err::<(), CallError>(CallError::NotInstance),
        s is Ok <==> export is Some && export->0 is Function,
        s == Err::<(), CallError>(CallError::NotExported) <==> export is None,
        s is Err && export is Some ==> s == Err::<(), CallError>(CallError::NotFunction),
{
}

} // verus!

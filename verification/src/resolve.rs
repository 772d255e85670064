//! The name resolver: one namespace per module, and the walk that turns a
//! dotted path into the entity it denotes, under visibility and library
//! scoping.

use crate::key::{prelude, spec_prelude, M, Module, Record, RecordField, TypeKind};
use crate::key::{Func, Method, Sum, SumVariant, Trait, Val};
use crate::names::{str_eq, NameTable};
use vstd::prelude::*;
use vstd::slice::slice_subrange;

verus! {

/// Who may see an entity: everybody, or the project that the given module
/// belongs to.
#[derive(Clone, Copy, PartialEq, Eq, Structural, Debug)]
pub enum Visibility {
    Project(Module),
    Public,
}

impl Visibility {
    pub fn from_public_flag(module: Module, public: bool) -> (r: Visibility)
        ensures
            r == (if public {
                Visibility::Public
            } else {
                Visibility::Project(module)
            }),
    {
        if public {
            Visibility::Public
        } else {
            Visibility::Project(module)
        }
    }
}

/// A resolved reference: the key, the module that hosts it, and who may see it.
#[derive(Clone, Copy, Debug)]
pub struct Mod<K> {
    pub visibility: Visibility,
    pub module: Module,
    pub key: K,
}

impl<K> Mod<K> {
    /// The same reference to another key.
    pub fn map<O, F: FnOnce(K) -> O>(self, f: F) -> (r: Mod<O>)
        requires
            f.requires((self.key,)),
        ensures
            f.ensures((self.key,), r.key),
            r.module == self.module,
            r.visibility == self.visibility,
    {
        Mod { key: f(self.key), module: self.module, visibility: self.visibility }
    }
}

/// Pointer to something in the function namespace.
#[derive(Clone, Copy, PartialEq, Eq, Structural, Debug)]
pub enum NFunc {
    Key(Func),
    Method(Trait, Method),
    SumVar(Sum, SumVariant),
    Val(Val),
}

/// The namespace that a lookup tries first.
#[derive(Clone, Copy, PartialEq, Eq, Structural, Debug)]
pub enum Namespace {
    Functions,
    Types,
    Modules,
}

/// What a path denotes.
#[derive(Clone, Copy, Debug)]
pub enum Entity<'s> {
    Module(Module),
    Func(NFunc),
    Type(TypeKind),
    /// A name looked up on a type: a method or a variant.
    Member(TypeKind, &'s str),
}

impl<'s> Entity<'s> {
    pub open spec fn spec_describe(&self) -> &'static str {
        match self {
            Entity::Module(_) => "module",
            Entity::Func(_) => "function",
            Entity::Type(_) => "type",
            Entity::Member(..) => "member",
        }
    }

    /// The kind of entity, as diagnostics name it.
    #[verifier::when_used_as_spec(spec_describe)]
    pub fn describe(&self) -> (r: &'static str)
        ensures
            r == self.spec_describe(),
    {
        match self {
            Entity::Module(_) => "module",
            Entity::Func(_) => "function",
            Entity::Type(_) => "type",
            Entity::Member(..) => "member",
        }
    }
}

/// Why a path did not resolve.
#[derive(Clone, Copy, Debug)]
pub enum ImportError<'s> {
    /// The name was found, but the origin may not see it.
    BadAccess(Visibility, &'static str, &'s str),
    /// A library section was named with a library that is not installed.
    LibNotInstalled(&'s str),
    /// The name is in no namespace of the module.
    NotFound(Module, &'s str),
    /// The name was used as a module and the module has no such module.
    ModNotFound(Module, &'s str),
}

/// Where a module stands in its project.
#[derive(Clone, Copy, PartialEq, Eq, Structural, Debug)]
pub enum ModuleKind {
    Root { parent: Option<Module> },
    Member { root: Module },
}

impl Default for ModuleKind {
    fn default() -> (r: ModuleKind)
        ensures
            r == (ModuleKind::Root { parent: None }),
    {
        ModuleKind::Root { parent: None }
    }
}

/// A record and one of its fields.
pub type Accessor = Mod<(Record, RecordField)>;

/// The declarations of one module.
#[derive(Debug)]
pub struct Namespaces {
    funcs: NameTable<Mod<NFunc>>,
    types: NameTable<Mod<TypeKind>>,
    child_modules: NameTable<Mod<Module>>,
    kind: ModuleKind,
    accessors: NameTable<Vec<Accessor>>,
}

/// What a `Namespaces` is: four maps from names, and the module's kind.
pub ghost struct Space {
    pub funcs: Map<Seq<char>, Mod<NFunc>>,
    pub types: Map<Seq<char>, Mod<TypeKind>>,
    pub child_modules: Map<Seq<char>, Mod<Module>>,
    pub accessors: Map<Seq<char>, Seq<Accessor>>,
    pub kind: ModuleKind,
}

/// The entity that the module's namespaces hold under `name`, the namespace
/// `priority` tried first; the first hit wins.
pub open spec fn in_namespace<'a>(space: Space, priority: Namespace, name: &'a str) -> Option<
    Mod<Entity<'a>>,
> {
    let func = if space.funcs.contains_key(name@) {
        let m = space.funcs[name@];
        Some(Mod { visibility: m.visibility, module: m.module, key: Entity::Func(m.key) })
    } else {
        None
    };
    let ty = if space.types.contains_key(name@) {
        let m = space.types[name@];
        Some(Mod { visibility: m.visibility, module: m.module, key: Entity::Type(m.key) })
    } else {
        None
    };
    let child = if space.child_modules.contains_key(name@) {
        let m = space.child_modules[name@];
        Some(Mod { visibility: m.visibility, module: m.module, key: Entity::Module(m.key) })
    } else {
        None
    };
    match priority {
        Namespace::Functions => if func is Some {
            func
        } else if ty is Some {
            ty
        } else {
            child
        },
        Namespace::Types => if ty is Some {
            ty
        } else if func is Some {
            func
        } else {
            child
        },
        Namespace::Modules => if child is Some {
            child
        } else if func is Some {
            func
        } else {
            ty
        },
    }
}

impl View for Namespaces {
    type V = Space;

    closed spec fn view(&self) -> Space {
        Space {
            funcs: self.funcs.map(),
            types: self.types.map(),
            child_modules: self.child_modules.map(),
            accessors: self.accessors.map().map_values(|list: Vec<Accessor>| list@),
            kind: self.kind,
        }
    }
}

impl Namespaces {
    /// No table holds a name twice.
    pub closed spec fn wf(&self) -> bool {
        &&& self.funcs.wf()
        &&& self.types.wf()
        &&& self.child_modules.wf()
        &&& self.accessors.wf()
    }

    /// The namespaces of a module of the given kind, with nothing declared.
    pub fn new(kind: ModuleKind) -> (r: Namespaces)
        ensures
            r.wf(),
            r@ == (Space {
                funcs: Map::empty(),
                types: Map::empty(),
                child_modules: Map::empty(),
                accessors: Map::empty(),
                kind,
            }),
    {
        let r = Namespaces {
            funcs: NameTable::new(),
            types: NameTable::new(),
            child_modules: NameTable::new(),
            kind,
            accessors: NameTable::new(),
        };
        assert(r@.accessors =~= Map::empty());
        r
    }

    fn try_function_namespace<'a>(&self, name: &'a str) -> (r: Option<Mod<Entity<'a>>>)
        requires
            self.wf(),
        ensures
            r == (if self@.funcs.contains_key(name@) {
                let m = self@.funcs[name@];
                Some(Mod { visibility: m.visibility, module: m.module, key: Entity::Func(m.key) })
            } else {
                None
            }),
    {
        match self.funcs.get(name) {
            Some(m) => Some(
                Mod { visibility: m.visibility, module: m.module, key: Entity::Func(m.key) },
            ),
            None => None,
        }
    }

    fn try_child_imports<'a>(&self, name: &'a str) -> (r: Option<Mod<Entity<'a>>>)
        requires
            self.wf(),
        ensures
            r == (if self@.child_modules.contains_key(name@) {
                let m = self@.child_modules[name@];
                Some(Mod { visibility: m.visibility, module: m.module, key: Entity::Module(m.key) })
            } else {
                None
            }),
    {
        match self.child_modules.get(name) {
            Some(m) => Some(
                Mod { visibility: m.visibility, module: m.module, key: Entity::Module(m.key) },
            ),
            None => None,
        }
    }

    fn try_type_namespace<'a>(&self, name: &'a str) -> (r: Option<Mod<Entity<'a>>>)
        requires
            self.wf(),
        ensures
            r == (if self@.types.contains_key(name@) {
                let m = self@.types[name@];
                Some(Mod { visibility: m.visibility, module: m.module, key: Entity::Type(m.key) })
            } else {
                None
            }),
    {
        match self.types.get(name) {
            Some(m) => Some(
                Mod { visibility: m.visibility, module: m.module, key: Entity::Type(m.key) },
            ),
            None => None,
        }
    }

    /// Looks `name` up in the three namespaces, `namespace` first.
    pub fn try_namespace<'a>(&self, namespace: Namespace, name: &'a str) -> (r: Option<
        Mod<Entity<'a>>,
    >)
        requires
            self.wf(),
        ensures
            r == in_namespace(self@, namespace, name),
    {
        let (first, second, third) = match namespace {
            Namespace::Functions => (Namespace::Functions, Namespace::Types, Namespace::Modules),
            Namespace::Types => (Namespace::Types, Namespace::Functions, Namespace::Modules),
            Namespace::Modules => (Namespace::Modules, Namespace::Functions, Namespace::Types),
        };
        match self.try_one(first, name) {
            Some(found) => Some(found),
            None => match self.try_one(second, name) {
                Some(found) => Some(found),
                None => self.try_one(third, name),
            },
        }
    }

    fn try_one<'a>(&self, namespace: Namespace, name: &'a str) -> (r: Option<Mod<Entity<'a>>>)
        requires
            self.wf(),
        ensures
            namespace is Functions ==> r == in_namespace(
                Space { types: Map::empty(), child_modules: Map::empty(), ..self@ },
                namespace,
                name,
            ),
            namespace is Types ==> r == in_namespace(
                Space { funcs: Map::empty(), child_modules: Map::empty(), ..self@ },
                namespace,
                name,
            ),
            namespace is Modules ==> r == in_namespace(
                Space { funcs: Map::empty(), types: Map::empty(), ..self@ },
                namespace,
                name,
            ),
    {
        match namespace {
            Namespace::Functions => self.try_function_namespace(name),
            Namespace::Types => self.try_type_namespace(name),
            Namespace::Modules => self.try_child_imports(name),
        }
    }
}

/// A kind of entity that has a namespace of its own to be declared in.
pub trait EntityT: Sized {
    /// The namespace of this kind of entity.
    spec fn table(space: Space) -> Map<Seq<char>, Mod<Self>>;

    /// `space` with the namespace of this kind of entity replaced.
    spec fn with_table(space: Space, table: Map<Seq<char>, Mod<Self>>) -> Space;

    /// Declares `m` under `name` and hands back what the name stood for before.
    fn insert(m: Mod<Self>, name: &str, namespaces: &mut Namespaces) -> (r: Option<Mod<Self>>)
        requires
            old(namespaces).wf(),
        ensures
            final(namespaces).wf(),
            final(namespaces)@ == Self::with_table(
                old(namespaces)@,
                Self::table(old(namespaces)@).insert(name@, m),
            ),
            r == (if Self::table(old(namespaces)@).contains_key(name@) {
                Some(Self::table(old(namespaces)@)[name@])
            } else {
                None
            }),
            final(namespaces)@.kind == old(namespaces)@.kind,
            final(namespaces)@.child_modules == old(namespaces)@.child_modules,
            final(namespaces)@.accessors == old(namespaces)@.accessors,
            forall|other: Seq<char>| #[trigger]
                final(namespaces)@.funcs.contains_key(other) ==> final(namespaces)@.funcs[other].visibility
                    == m.visibility || (old(namespaces)@.funcs.contains_key(other) && old(
                    namespaces,
                )@.funcs[other] == final(namespaces)@.funcs[other]),
            forall|other: Seq<char>| #[trigger]
                final(namespaces)@.types.contains_key(other) ==> final(namespaces)@.types[other].visibility
                    == m.visibility || (old(namespaces)@.types.contains_key(other) && old(
                    namespaces,
                )@.types[other] == final(namespaces)@.types[other]),
    ;
}

impl EntityT for NFunc {
    open spec fn table(space: Space) -> Map<Seq<char>, Mod<NFunc>> {
        space.funcs
    }

    open spec fn with_table(space: Space, table: Map<Seq<char>, Mod<NFunc>>) -> Space {
        Space { funcs: table, ..space }
    }

    fn insert(m: Mod<NFunc>, name: &str, namespaces: &mut Namespaces) -> (r: Option<Mod<NFunc>>) {
        namespaces.funcs.insert(name.to_owned(), m)
    }
}

impl EntityT for TypeKind {
    open spec fn table(space: Space) -> Map<Seq<char>, Mod<TypeKind>> {
        space.types
    }

    open spec fn with_table(space: Space, table: Map<Seq<char>, Mod<TypeKind>>) -> Space {
        Space { types: table, ..space }
    }

    fn insert(m: Mod<TypeKind>, name: &str, namespaces: &mut Namespaces) -> (r: Option<
        Mod<TypeKind>,
    >) {
        namespaces.types.insert(name.to_owned(), m)
    }
}

/// The libraries installed under each of the three library sections.
#[derive(Debug)]
struct Libs {
    std: NameTable<Module>,
    ext: NameTable<Module>,
    prelude: NameTable<Module>,
}

/// The resolver: the namespaces of all modules, indexed by module, the
/// module that is the project's root, and the installed libraries.
#[derive(Debug)]
pub struct Lookups {
    modules: Vec<Namespaces>,
    pub project: Module,
    libs: Libs,
}

/// What a `Lookups` is.
pub ghost struct Model {
    pub modules: Seq<Space>,
    pub project: Module,
    pub std: Map<Seq<char>, Module>,
    pub ext: Map<Seq<char>, Module>,
    pub prelude: Map<Seq<char>, Module>,
}

/// Whether a visibility names only modules among the first `count`.
pub open spec fn sees_within(count: nat, visibility: Visibility) -> bool {
    match visibility {
        Visibility::Project(m) => m.0 < count,
        Visibility::Public => true,
    }
}

/// What the module graph asks of the namespaces of module `i`, in a table of
/// `count` modules.
pub open spec fn space_ok(count: nat, i: int, space: Space) -> bool {
    &&& match space.kind {
        ModuleKind::Root { parent: Some(p) } => p.0 < i,
        ModuleKind::Root { parent: None } => true,
        ModuleKind::Member { root } => root.0 < i,
    }
    &&& forall|name: Seq<char>| #[trigger]
        space.child_modules.contains_key(name) ==> space.child_modules[name].key.0 < count
            && sees_within(count, space.child_modules[name].visibility)
    &&& forall|name: Seq<char>| #[trigger]
        space.funcs.contains_key(name) ==> sees_within(count, space.funcs[name].visibility)
    &&& forall|name: Seq<char>| #[trigger]
        space.types.contains_key(name) ==> sees_within(count, space.types[name].visibility)
}

/// Whether `label` names a library section.
pub open spec fn is_section(label: Seq<char>) -> bool {
    label == "std"@ || label == "ext"@ || label == "prelude"@
}

impl Model {
    /// Whether `module` is in the module table.
    pub open spec fn has(self, module: Module) -> bool {
        module.0 < self.modules.len()
    }

    /// The libraries installed under the section `label`.
    pub open spec fn section(self, label: Seq<char>) -> Option<Map<Seq<char>, Module>> {
        if label == "std"@ {
            Some(self.std)
        } else if label == "ext"@ {
            Some(self.ext)
        } else if label == "prelude"@ {
            Some(self.prelude)
        } else {
            None
        }
    }

    /// Whether a visibility names only modules of the table.
    pub open spec fn sees(self, visibility: Visibility) -> bool {
        sees_within(self.modules.len(), visibility)
    }

    /// The invariant of the module graph: a module's parent or root came
    /// before it, so that the walk to a root ends; every module that a
    /// namespace or a library names, as an import or in a visibility, is in
    /// the table.
    pub open spec fn valid(self) -> bool {
        &&& forall|i: int|
            0 <= i < self.modules.len() ==> space_ok(
                self.modules.len(),
                i,
                #[trigger] self.modules[i],
            )
        &&& forall|name: Seq<char>| #[trigger] self.std.contains_key(name) ==> self.has(self.std[name])
        &&& forall|name: Seq<char>| #[trigger] self.ext.contains_key(name) ==> self.has(self.ext[name])
        &&& forall|name: Seq<char>| #[trigger]
            self.prelude.contains_key(name) ==> self.has(self.prelude[name])
    }

    /// The root of the project that `of` belongs to: a root without a
    /// parent is its own; that of any other module is the root of its
    /// parent, or of the root that it is a member of.
    pub open spec fn root_of(self, of: Module) -> Module
        decreases of.0,
    {
        if !self.has(of) {
            of
        } else {
            match self.modules[of.0 as int].kind {
                ModuleKind::Root { parent: Some(p) } => if p.0 < of.0 {
                    self.root_of(p)
                } else {
                    of
                },
                ModuleKind::Root { parent: None } => of,
                ModuleKind::Member { root } => if root.0 < of.0 {
                    self.root_of(root)
                } else {
                    of
                },
            }
        }
    }

    /// Whether two modules share a root.
    pub open spec fn same_project(self, a: Module, b: Module) -> bool {
        self.root_of(a) == self.root_of(b)
    }

    /// Whether `current` may see what has the given visibility.
    pub open spec fn reachable(self, current: Module, visibility: Visibility) -> bool {
        match visibility {
            Visibility::Project(m) => self.same_project(current, m),
            Visibility::Public => true,
        }
    }

    /// The module that `name` imports in `from`, or else in the root that
    /// `from` is a member of.
    pub open spec fn import_of(self, from: Module, name: Seq<char>) -> Option<Mod<Module>>
        decreases from.0,
    {
        if !self.has(from) {
            None
        } else if self.modules[from.0 as int].child_modules.contains_key(name) {
            Some(self.modules[from.0 as int].child_modules[name])
        } else {
            match self.modules[from.0 as int].kind {
                ModuleKind::Member { root } => if root.0 < from.0 {
                    self.import_of(root, name)
                } else {
                    None
                },
                _ => None,
            }
        }
    }

    /// The entity that the last segment `name` denotes in `module`.
    pub open spec fn last_segment<'a>(self, namespace: Namespace, module: Module, name: &'a str) -> Result<
        Mod<Entity<'a>>,
        ImportError<'a>,
    > {
        let import = self.import_of(module, name@);
        if namespace is Modules && import is Some {
            let m = import->0;
            Ok(Mod { visibility: m.visibility, module: m.module, key: Entity::Module(m.key) })
        } else {
            match in_namespace(self.modules[module.0 as int], namespace, name) {
                Some(found) => Ok(found),
                None => Err(ImportError::NotFound(module, name)),
            }
        }
    }

    /// The member `member` of the type that `name` denotes in `module`.
    pub open spec fn type_member<'a>(self, module: Module, name: &'a str, member: &'a str) -> Result<
        Mod<Entity<'a>>,
        ImportError<'a>,
    > {
        match in_namespace(self.modules[module.0 as int], Namespace::Types, name) {
            Some(found) => match found.key {
                Entity::Type(ty) => Ok(
                    Mod {
                        visibility: found.visibility,
                        module: found.module,
                        key: Entity::Member(ty, member),
                    },
                ),
                _ => Err(ImportError::ModNotFound(module, name)),
            },
            None => Err(ImportError::ModNotFound(module, name)),
        }
    }

    /// The entity that `path` denotes, walked from `module` on behalf of
    /// `origin`, before the visibility of the entity itself is looked at.
    pub open spec fn walk<'a>(
        self,
        origin: Module,
        namespace: Namespace,
        module: Module,
        path: Seq<&'a str>,
        ignore_vis: bool,
    ) -> Result<Mod<Entity<'a>>, ImportError<'a>>
        decreases path.len(), 0nat,
    {
        if path.len() == 0 {
            Ok(Mod { key: Entity::Module(module), module, visibility: Visibility::Public })
        } else if path.len() == 1 {
            self.last_segment(namespace, module, path[0])
        } else {
            match self.import_of(module, path[0]@) {
                Some(m) => if !self.reachable(origin, m.visibility) && !ignore_vis {
                    Err(ImportError::BadAccess(m.visibility, "module", path[0]))
                } else {
                    self.resolve_in(origin, namespace, m.key, path.drop_first(), ignore_vis)
                },
                None => if path.len() == 2 {
                    self.type_member(module, path[0], path[1])
                } else {
                    Err(ImportError::ModNotFound(module, path[0]))
                },
            }
        }
    }

    /// The entity that `path` denotes, walked from `module` on behalf of
    /// `origin`: the empty path is the module itself; a single segment is
    /// looked up in the namespaces; of more segments the first is a module to
    /// go on in, or, where two are left, a type whose member the second is.
    /// What was found must be visible to `origin`, unless `ignore_vis`.
    pub open spec fn resolve_in<'a>(
        self,
        origin: Module,
        namespace: Namespace,
        module: Module,
        path: Seq<&'a str>,
        ignore_vis: bool,
    ) -> Result<Mod<Entity<'a>>, ImportError<'a>>
        decreases path.len(), 1nat,
    {
        match self.walk(origin, namespace, module, path, ignore_vis) {
            Ok(entity) => if !self.reachable(origin, entity.visibility) && !ignore_vis {
                Err(ImportError::BadAccess(entity.visibility, entity.key.spec_describe(), path.last()))
            } else {
                Ok(entity)
            },
            Err(err) => Err(err),
        }
    }

    /// `first`, and where it failed for want of the name, the same walk from
    /// the prelude, whose failure is reported as that of `first`.
    pub open spec fn with_fallback<'a>(
        self,
        origin: Module,
        namespace: Namespace,
        start: Module,
        path: Seq<&'a str>,
        ignore_vis: bool,
    ) -> Result<Mod<Entity<'a>>, ImportError<'a>> {
        let first = self.resolve_in(origin, namespace, start, path, ignore_vis);
        match first {
            Ok(_) => first,
            Err(ImportError::BadAccess(..)) => first,
            Err(ImportError::LibNotInstalled(_)) => first,
            Err(_) => match self.resolve_in(origin, namespace, spec_prelude(), path, ignore_vis) {
                Ok(entity) => Ok(entity),
                Err(_) => first,
            },
        }
    }

    /// The entity that `path` denotes for `from`. A path that starts with a
    /// library section goes on in the library that its second segment names;
    /// one that starts with `project` goes on in the project root; any other
    /// starts in `from`. `std` followed by `prelude` switches visibility off.
    pub open spec fn resolve<'a>(
        self,
        from: Module,
        namespace: Namespace,
        path: Seq<&'a str>,
        ignore_vis: bool,
    ) -> Result<Mod<Entity<'a>>, ImportError<'a>> {
        let ignore_vis = ignore_vis || (path.len() >= 2 && path[0]@ == "std"@ && path[1]@
            == "prelude"@);
        match self.section(path[0]@) {
            Some(libs) => if libs.contains_key(path[1]@) {
                self.with_fallback(from, namespace, libs[path[1]@], path.skip(2), ignore_vis)
            } else {
                Err(ImportError::LibNotInstalled(path[1]))
            },
            None => if path[0]@ == "project"@ {
                self.with_fallback(from, namespace, self.project, path.skip(1), ignore_vis)
            } else {
                self.with_fallback(from, namespace, from, path, ignore_vis)
            },
        }
    }

    /// What `resolve` asks of a path: it is not empty, a library section is
    /// followed by a library name, and `project` is used only once the
    /// project root is set.
    pub open spec fn resolvable<'a>(self, from: Module, path: Seq<&'a str>) -> bool {
        &&& self.has(from)
        &&& path.len() >= 1
        &&& is_section(path[0]@) ==> path.len() >= 2
        &&& path[0]@ == "project"@ ==> self.has(self.project)
    }
}

impl View for Lookups {
    type V = Model;

    closed spec fn view(&self) -> Model {
        Model {
            modules: Seq::new(self.modules.len() as nat, |i: int| self.modules[i]@),
            project: self.project,
            std: self.libs.std.map(),
            ext: self.libs.ext.map(),
            prelude: self.libs.prelude.map(),
        }
    }
}

impl Libs {
    fn section(&self, label: &str) -> (r: Option<&NameTable<Module>>)
        ensures
            label@ == "std"@ ==> r == Some(&self.std),
            label@ != "std"@ && label@ == "ext"@ ==> r == Some(&self.ext),
            label@ != "std"@ && label@ != "ext"@ && label@ == "prelude"@ ==> r == Some(
                &self.prelude,
            ),
            !is_section(label@) ==> r is None,
    {
        if str_eq(label, "std") {
            Some(&self.std)
        } else if str_eq(label, "ext") {
            Some(&self.ext)
        } else if str_eq(label, "prelude") {
            Some(&self.prelude)
        } else {
            None
        }
    }
}

impl Lookups {
    /// The invariant: no table holds a name twice, the module graph is
    /// valid, and the modules can be counted in 32 bits.
    pub closed spec fn wf(&self) -> bool {
        &&& forall|i: int| 0 <= i < self.modules.len() ==> (#[trigger] self.modules[i]).wf()
        &&& self.libs.std.wf()
        &&& self.libs.ext.wf()
        &&& self.libs.prelude.wf()
        &&& self.modules.len() <= u32::MAX
        &&& self@.valid()
    }

    /// A resolver without modules, whose project root is yet to be set.
    pub fn new() -> (r: Lookups)
        ensures
            r.wf(),
            r@ == (Model {
                modules: Seq::empty(),
                project: Module(u32::MAX),
                std: Map::empty(),
                ext: Map::empty(),
                prelude: Map::empty(),
            }),
    {
        let r = Lookups {
            modules: Vec::new(),
            project: Module(u32::MAX),
            libs: Libs { std: NameTable::new(), ext: NameTable::new(), prelude: NameTable::new() },
        };
        assert(r@.modules =~= Seq::empty());
        r
    }

    /// Sets the module that `project` in a path stands for.
    pub fn set_project(&mut self, project: Module)
        requires
            old(self).wf(),
        ensures
            final(self).wf(),
            final(self)@ == (Model { project, ..old(self)@ }),
    {
        self.project = project;
        assert(self@.modules =~= old(self)@.modules);
    }

    /// Adds a module with nothing declared in it.
    fn new_module(&mut self, kind: ModuleKind) -> (r: Module)
        requires
            old(self).wf(),
            old(self)@.modules.len() < u32::MAX,
            match kind {
                ModuleKind::Root { parent: Some(p) } => old(self)@.has(p),
                ModuleKind::Root { parent: None } => true,
                ModuleKind::Member { root } => old(self)@.has(root),
            },
        ensures
            final(self).wf(),
            r.0 == old(self)@.modules.len(),
            final(self)@ == (Model {
                modules: old(self)@.modules.push(
                    Space {
                        funcs: Map::empty(),
                        types: Map::empty(),
                        child_modules: Map::empty(),
                        accessors: Map::empty(),
                        kind,
                    },
                ),
                ..old(self)@
            }),
    {
        let namespaces = Namespaces::new(kind);
        let index = self.modules.len();
        self.modules.push(namespaces);
        proof {
            assert(self@.modules =~= old(self)@.modules.push(namespaces@));
            assert forall|i: int| 0 <= i < self@.modules.len() implies space_ok(
                self@.modules.len(),
                i,
                #[trigger] self@.modules[i],
            ) by {
                if i < index {
                    assert(space_ok(old(self)@.modules.len(), i, old(self)@.modules[i]));
                }
            }
        }
        Module(index as u32)
    }

    /// Adds a module that is the root of a project, below `parent` if given.
    pub fn new_root_module(&mut self, parent: Option<Module>) -> (r: Module)
        requires
            old(self).wf(),
            old(self)@.modules.len() < u32::MAX,
            parent is Some ==> old(self)@.has(parent->0),
        ensures
            final(self).wf(),
            r.0 == old(self)@.modules.len(),
            final(self)@ == (Model {
                modules: old(self)@.modules.push(
                    Space {
                        funcs: Map::empty(),
                        types: Map::empty(),
                        child_modules: Map::empty(),
                        accessors: Map::empty(),
                        kind: ModuleKind::Root { parent },
                    },
                ),
                ..old(self)@
            }),
    {
        self.new_module(ModuleKind::Root { parent })
    }

    /// Adds a module that is a member of the project of `root`.
    pub fn new_member_module(&mut self, root: Module) -> (r: Module)
        requires
            old(self).wf(),
            old(self)@.modules.len() < u32::MAX,
            old(self)@.has(root),
        ensures
            final(self).wf(),
            r.0 == old(self)@.modules.len(),
            final(self)@ == (Model {
                modules: old(self)@.modules.push(
                    Space {
                        funcs: Map::empty(),
                        types: Map::empty(),
                        child_modules: Map::empty(),
                        accessors: Map::empty(),
                        kind: ModuleKind::Member { root },
                    },
                ),
                ..old(self)@
            }),
    {
        self.new_module(ModuleKind::Member { root })
    }

    /// Adds the root module of a library and installs it as `lib` in the
    /// library section `in_`.
    pub fn new_lib(&mut self, in_: &'static str, lib: String) -> (r: Module)
        requires
            old(self).wf(),
            old(self)@.modules.len() < u32::MAX,
            is_section(in_@),
        ensures
            final(self).wf(),
            r.0 == old(self)@.modules.len(),
            final(self)@.modules == old(self)@.modules.push(
                Space {
                    funcs: Map::empty(),
                    types: Map::empty(),
                    child_modules: Map::empty(),
                    accessors: Map::empty(),
                    kind: ModuleKind::Root { parent: None },
                },
            ),
            final(self)@.project == old(self)@.project,
            final(self)@.section(in_@) == Some(old(self)@.section(in_@)->0.insert(lib@, r)),
            forall|label: Seq<char>|
                label != in_@ ==> final(self)@.section(label) == old(self)@.section(label),
    {
        let module = self.new_module(ModuleKind::Root { parent: None });
        let ghost mid = *self;
        if str_eq(in_, "std") {
            self.libs.std.insert(lib, module);
        } else if str_eq(in_, "ext") {
            self.libs.ext.insert(lib, module);
        } else {
            self.libs.prelude.insert(lib, module);
        }
        proof {
            assert(self@.modules =~= mid@.modules);
        }
        module
    }
}

impl Lookups {
    /// Declares `entity`, hosted by `dstmodule`, under `name` in the
    /// namespace of its kind in `module`. Hands back what the name stood for
    /// before, which makes this declaration a duplicate.
    pub fn declare<T: EntityT>(
        &mut self,
        module: Module,
        visibility: Visibility,
        name: &str,
        dstmodule: Module,
        entity: T,
    ) -> (r: Option<Mod<T>>)
        requires
            old(self).wf(),
            old(self)@.has(module),
            old(self)@.sees(visibility),
        ensures
            final(self).wf(),
            final(self)@ == (Model {
                modules: old(self)@.modules.update(
                    module.0 as int,
                    T::with_table(
                        old(self)@.modules[module.0 as int],
                        T::table(old(self)@.modules[module.0 as int]).insert(
                            name@,
                            Mod { visibility, module: dstmodule, key: entity },
                        ),
                    ),
                ),
                ..old(self)@
            }),
            r == (if T::table(old(self)@.modules[module.0 as int]).contains_key(name@) {
                Some(T::table(old(self)@.modules[module.0 as int])[name@])
            } else {
                None
            }),
    {
        let m = Mod { visibility, module: dstmodule, key: entity };
        let index = module.0 as usize;
        let previous = T::insert(m, name, &mut self.modules[index]);
        proof {
            let space = self.modules[index as int]@;
            assert(self@.modules =~= old(self)@.modules.update(index as int, space));
            let before = old(self)@.modules[index as int];
            assert(space_ok(old(self)@.modules.len(), index as int, before));
            assert forall|i: int| 0 <= i < self@.modules.len() implies space_ok(
                self@.modules.len(),
                i,
                #[trigger] self@.modules[i],
            ) by {
                assert(space_ok(old(self)@.modules.len(), i, old(self)@.modules[i]));
                if i == index {
                    assert forall|other: Seq<char>| #[trigger]
                        space.funcs.contains_key(other) implies sees_within(
                        self@.modules.len(),
                        space.funcs[other].visibility,
                    ) by {
                        if space.funcs[other].visibility != visibility {
                            assert(before.funcs.contains_key(other));
                        }
                    }
                    assert forall|other: Seq<char>| #[trigger]
                        space.types.contains_key(other) implies sees_within(
                        self@.modules.len(),
                        space.types[other].visibility,
                    ) by {
                        if space.types[other].visibility != visibility {
                            assert(before.types.contains_key(other));
                        }
                    }
                }
            }
        }
        previous
    }

    /// Declares that `name` reads the field `field` of the record `type_`.
    /// A name may stand for fields of several records.
    pub fn declare_accessor(
        &mut self,
        module: Module,
        visibility: Visibility,
        name: &str,
        type_: Record,
        field: RecordField,
    )
        requires
            old(self).wf(),
            old(self)@.has(module),
        ensures
            final(self).wf(),
            final(self)@ == (Model {
                modules: old(self)@.modules.update(
                    module.0 as int,
                    Space {
                        accessors: old(self)@.modules[module.0 as int].accessors.insert(
                            name@,
                            (if old(self)@.modules[module.0 as int].accessors.contains_key(name@) {
                                old(self)@.modules[module.0 as int].accessors[name@]
                            } else {
                                Seq::empty()
                            }).push(Mod { visibility, module, key: (type_, field) }),
                        ),
                        ..old(self)@.modules[module.0 as int]
                    },
                ),
                ..old(self)@
            }),
    {
        let m = Mod { visibility, module, key: (type_, field) };
        let index = module.0 as usize;
        let namespaces = &mut self.modules[index];
        namespaces.accessors.push_to(name, m);
        proof {
            let before = old(self)@.modules[index as int];
            let space = self.modules[index as int]@;
            let list = (if before.accessors.contains_key(name@) {
                before.accessors[name@]
            } else {
                Seq::empty()
            }).push(m);
            assert(space.accessors =~= before.accessors.insert(name@, list));
            assert(self@.modules =~= old(self)@.modules.update(
                index as int,
                Space { accessors: before.accessors.insert(name@, list), ..before },
            ));
            assert forall|i: int| 0 <= i < self@.modules.len() implies space_ok(
                self@.modules.len(),
                i,
                #[trigger] self@.modules[i],
            ) by {
                assert(space_ok(old(self)@.modules.len(), i, old(self)@.modules[i]));
            }
        }
    }

    /// Makes `name` stand for the module `dst` in `module`.
    pub fn declare_module_link(
        &mut self,
        module: Module,
        visibility: Visibility,
        name: String,
        dst: Module,
    )
        requires
            old(self).wf(),
            old(self)@.has(module),
            old(self)@.has(dst),
            old(self)@.sees(visibility),
        ensures
            final(self).wf(),
            final(self)@ == (Model {
                modules: old(self)@.modules.update(
                    module.0 as int,
                    Space {
                        child_modules: old(self)@.modules[module.0 as int].child_modules.insert(
                            name@,
                            Mod { module, visibility, key: dst },
                        ),
                        ..old(self)@.modules[module.0 as int]
                    },
                ),
                ..old(self)@
            }),
    {
        let m = Mod { module, visibility, key: dst };
        let index = module.0 as usize;
        let namespaces = &mut self.modules[index];
        namespaces.child_modules.insert(name, m);
        proof {
            let before = old(self)@.modules[index as int];
            let space = self.modules[index as int]@;
            assert(self@.modules =~= old(self)@.modules.update(index as int, space));
            assert forall|i: int| 0 <= i < self@.modules.len() implies space_ok(
                self@.modules.len(),
                i,
                #[trigger] self@.modules[i],
            ) by {
                assert(space_ok(old(self)@.modules.len(), i, old(self)@.modules[i]));
                if i == index {
                    assert forall|other: Seq<char>| #[trigger]
                        space.child_modules.contains_key(other) implies space.child_modules[other].key.0
                        < self@.modules.len() && sees_within(
                        self@.modules.len(),
                        space.child_modules[other].visibility,
                    ) by {
                        if other != name@ {
                            assert(before.child_modules.contains_key(other));
                        }
                    }
                }
            }
        }
    }

    /// The root of the project that `of` belongs to.
    fn get_root_module(&self, of: Module) -> (r: Module)
        requires
            self.wf(),
            self@.has(of),
        ensures
            r == self@.root_of(of),
            self@.has(r),
        decreases of.0,
    {
        proof {
            assert(space_ok(self@.modules.len(), of.0 as int, self@.modules[of.0 as int]));
        }
        match self.modules[of.0 as usize].kind {
            ModuleKind::Root { parent } => match parent {
                Some(p) => self.get_root_module(p),
                None => of,
            },
            ModuleKind::Member { root } => self.get_root_module(root),
        }
    }

    /// Whether all of `modules` belong to the project of the first.
    fn are_members_of_same_project(&self, modules: &[Module]) -> (r: bool)
        requires
            self.wf(),
            modules.len() >= 1,
            forall|i: int| 0 <= i < modules.len() ==> self@.has(#[trigger] modules[i]),
        ensures
            r == forall|i: int|
                0 <= i < modules.len() ==> self@.same_project(modules[0], #[trigger] modules[i]),
    {
        let first = self.get_root_module(modules[0]);
        let mut i: usize = 1;
        while i < modules.len()
            invariant
                1 <= i <= modules.len(),
                self.wf(),
                first == self@.root_of(modules[0]),
                forall|k: int| 0 <= k < modules.len() ==> self@.has(#[trigger] modules[k]),
                forall|k: int| 0 <= k < i ==> self@.same_project(modules[0], #[trigger] modules[k]),
            decreases modules.len() - i,
        {
            let root = self.get_root_module(modules[i]);
            if root.0 != first.0 {
                assert(!self@.same_project(modules[0], modules[i as int]));
                return false;
            }
            i += 1;
        }
        true
    }

    /// Whether `current` may see what has the given visibility: what is
    /// public, and what belongs to a project that `current` shares the root of.
    pub fn is_valid_reachability(&self, current: Module, visibility: Visibility) -> (r: bool)
        requires
            self.wf(),
            self@.has(current),
            self@.sees(visibility),
        ensures
            r == self@.reachable(current, visibility),
    {
        match visibility {
            Visibility::Project(m) => {
                let pair = [current, m];
                let same = self.are_members_of_same_project(pair.as_slice());
                proof {
                    if self@.same_project(current, m) {
                        assert forall|i: int| 0 <= i < pair@.len() implies self@.same_project(
                            pair@[0],
                            #[trigger] pair@[i],
                        ) by {}
                    } else {
                        assert(!self@.same_project(pair@[0], pair@[1]));
                    }
                }
                same
            },
            Visibility::Public => true,
        }
    }

    /// The module that `name` imports in `from`, or else in the root that
    /// `from` is a member of.
    pub fn resolve_import(&self, from: Module, name: &str) -> (r: Option<Mod<Module>>)
        requires
            self.wf(),
            self@.has(from),
        ensures
            r == self@.import_of(from, name@),
            r is Some ==> self@.has(r->0.key) && self@.sees(r->0.visibility),
        decreases from.0,
    {
        proof {
            assert(space_ok(self@.modules.len(), from.0 as int, self@.modules[from.0 as int]));
        }
        let namespaces = &self.modules[from.0 as usize];
        match namespaces.child_modules.get(name) {
            Some(m) => Some(*m),
            None => match namespaces.kind {
                ModuleKind::Member { root } => self.resolve_import(root, name),
                _ => None,
            },
        }
    }

    /// All records and fields that `name` may read in `module`.
    pub fn resolve_accessor(&self, module: Module, name: &str) -> (r: &[Accessor])
        requires
            self.wf(),
            self@.has(module),
        ensures
            r@ == (if self@.modules[module.0 as int].accessors.contains_key(name@) {
                self@.modules[module.0 as int].accessors[name@]
            } else {
                Seq::empty()
            }),
    {
        match self.modules[module.0 as usize].accessors.get(name) {
            Some(list) => list.as_slice(),
            None => &[],
        }
    }
}

impl Lookups {
    /// Looks the last segment of a path up in `module`.
    fn resolve_last<'a>(&self, namespace: Namespace, module: Module, name: &'a str) -> (r: Result<
        Mod<Entity<'a>>,
        ImportError<'a>,
    >)
        requires
            self.wf(),
            self@.has(module),
        ensures
            r == self@.last_segment(namespace, module, name),
            r is Ok ==> self@.sees(r->Ok_0.visibility),
    {
        proof {
            assert(space_ok(self@.modules.len(), module.0 as int, self@.modules[module.0 as int]));
        }
        if let Namespace::Modules = namespace {
            if let Some(m) = self.resolve_import(module, name) {
                return Ok(
                    Mod { visibility: m.visibility, module: m.module, key: Entity::Module(m.key) },
                );
            }
        }
        match self.modules[module.0 as usize].try_namespace(namespace, name) {
            Some(found) => Ok(found),
            None => Err(ImportError::NotFound(module, name)),
        }
    }

    /// Looks `member` up on the type that `name` denotes in `module`.
    fn resolve_member<'a>(&self, module: Module, name: &'a str, member: &'a str) -> (r: Result<
        Mod<Entity<'a>>,
        ImportError<'a>,
    >)
        requires
            self.wf(),
            self@.has(module),
        ensures
            r == self@.type_member(module, name, member),
            r is Ok ==> self@.sees(r->Ok_0.visibility),
    {
        proof {
            assert(space_ok(self@.modules.len(), module.0 as int, self@.modules[module.0 as int]));
        }
        // no module of this name found, but it could still be a type or a trait
        match self.modules[module.0 as usize].try_namespace(Namespace::Types, name) {
            None => Err(ImportError::ModNotFound(module, name)),
            Some(entity) => match entity.key {
                Entity::Type(type_) => Ok(
                    Mod {
                        visibility: entity.visibility,
                        module: entity.module,
                        key: Entity::Member(type_, member),
                    },
                ),
                _ => Err(ImportError::ModNotFound(module, name)),
            },
        }
    }

    /// Walks `path` from `module` on behalf of `origin`.
    fn resolve_in<'a>(
        &self,
        origin: Module,
        namespace: Namespace,
        module: Module,
        path: &[&'a str],
        ignore_vis: bool,
    ) -> (r: Result<Mod<Entity<'a>>, ImportError<'a>>)
        requires
            self.wf(),
            self@.has(origin),
            self@.has(module),
        ensures
            r == self@.resolve_in(origin, namespace, module, path@, ignore_vis),
        decreases path.len(),
    {
        let walked = if path.len() == 0 {
            Ok(Mod { key: Entity::Module(module), module, visibility: Visibility::Public })
        } else if path.len() == 1 {
            self.resolve_last(namespace, module, path[0])
        } else {
            let x = path[0];
            match self.resolve_import(module, x) {
                Some(m) => {
                    if !self.is_valid_reachability(origin, m.visibility) && !ignore_vis {
                        return Err(ImportError::BadAccess(m.visibility, "module", x));
                    }
                    let xs = slice_subrange(path, 1, path.len());
                    assert(xs@ == path@.drop_first());
                    let found = self.resolve_in(origin, namespace, m.key, xs, ignore_vis);
                    proof {
                        self@.lemma_resolved_is_checked(origin, namespace, m.key, xs@, ignore_vis);
                    }
                    return found;
                },
                None => if path.len() == 2 {
                    self.resolve_member(module, x, path[1])
                } else {
                    Err(ImportError::ModNotFound(module, x))
                },
            }
        };
        match walked {
            Ok(entity) => {
                if !self.is_valid_reachability(origin, entity.visibility) && !ignore_vis {
                    return Err(
                        ImportError::BadAccess(
                            entity.visibility,
                            entity.key.describe(),
                            path[path.len() - 1],
                        ),
                    );
                }
                Ok(entity)
            },
            Err(err) => Err(err),
        }
    }

    /// Resolves `path` for `from`, `namespace` tried first for its last
    /// segment, and falls back on the prelude where the name is not found.
    pub fn resolve<'a>(
        &self,
        from: Module,
        namespace: Namespace,
        path: &[&'a str],
        ignore_vis: bool,
    ) -> (r: Result<Mod<Entity<'a>>, ImportError<'a>>)
        requires
            self.wf(),
            self@.resolvable(from, path@),
        ensures
            r == self@.resolve(from, namespace, path@, ignore_vis),
    {
        // a path that names the prelude in full is not held to visibility, so
        // that the standard library can call private items of it
        let ignore_vis = ignore_vis || (path.len() >= 2 && str_eq(path[0], "std") && str_eq(
            path[1],
            "prelude",
        ));
        let (start_at, rest) = match self.libs.section(path[0]) {
            Some(libs) => {
                let lname = path[1];
                match libs.get(lname) {
                    None => {
                        return Err(ImportError::LibNotInstalled(lname));
                    },
                    Some(module) => (*module, slice_subrange(path, 2, path.len())),
                }
            },
            None => if str_eq(path[0], "project") {
                (self.project, slice_subrange(path, 1, path.len()))
            } else {
                (from, path)
            },
        };
        assert(path@.subrange(0, path@.len() as int) =~= path@);
        let first = self.resolve_in(from, namespace, start_at, rest, ignore_vis);
        match first {
            Ok(entity) => Ok(entity),
            Err(ImportError::BadAccess(vis, kind, name)) => Err(
                ImportError::BadAccess(vis, kind, name),
            ),
            Err(ImportError::LibNotInstalled(name)) => Err(ImportError::LibNotInstalled(name)),
            Err(err) => match self.resolve_in(from, namespace, prelude(), rest, ignore_vis) {
                Ok(entity) => Ok(entity),
                Err(_) => Err(err),
            },
        }
    }

    /// Resolves an entity, the function namespace first.
    pub fn resolve_func<'a>(&self, from: Module, path: &[&'a str]) -> (r: Result<
        Mod<Entity<'a>>,
        ImportError<'a>,
    >)
        requires
            self.wf(),
            self@.resolvable(from, path@),
        ensures
            r == self@.resolve(from, Namespace::Functions, path@, false),
    {
        self.resolve(from, Namespace::Functions, path, false)
    }

    /// Resolves an entity, the type namespace first.
    pub fn resolve_type<'a>(&self, from: Module, path: &[&'a str]) -> (r: Result<
        Mod<Entity<'a>>,
        ImportError<'a>,
    >)
        requires
            self.wf(),
            self@.resolvable(from, path@),
        ensures
            r == self@.resolve(from, Namespace::Types, path@, false),
    {
        self.resolve(from, Namespace::Types, path, false)
    }

    /// Resolves an entity, imports and child modules first.
    pub fn resolve_module<'a>(&self, from: Module, path: &[&'a str]) -> (r: Result<
        Mod<Entity<'a>>,
        ImportError<'a>,
    >)
        requires
            self.wf(),
            self@.resolvable(from, path@),
        ensures
            r == self@.resolve(from, Namespace::Modules, path@, false),
    {
        self.resolve(from, Namespace::Modules, path, false)
    }

    /// Resolves a built-in hook as if from the project root, whatever its
    /// visibility.
    pub fn resolve_langitem<'a>(&self, names: &[&'a str]) -> (r: Result<
        Mod<Entity<'a>>,
        ImportError<'a>,
    >)
        requires
            self.wf(),
            self@.resolvable(self@.project, names@),
        ensures
            r == self@.resolve(self@.project, Namespace::Functions, names@, true),
    {
        self.resolve(self.project, Namespace::Functions, names, true)
    }

    /// Resolves the single name `name` in `module` on behalf of `origin`, the
    /// type namespace first.
    pub fn resolve_entity_in<'a>(&self, origin: Module, module: Module, name: &'a str, igv: bool) -> (r:
        Result<Mod<Entity<'a>>, ImportError<'a>>)
        requires
            self.wf(),
            self@.has(origin),
            self@.has(module),
        ensures
            r == self@.resolve_in(origin, Namespace::Types, module, seq![name], igv),
    {
        let path = [name];
        assert(path@ =~= seq![name]);
        self.resolve_in(origin, Namespace::Types, module, path.as_slice(), igv)
    }

    /// Standard libraries need not be declared as dependencies and are
    /// loaded when first imported. Says whether `path` names a standard
    /// library that is not loaded yet, and if so which, with the rest of the
    /// path.
    pub fn lib_should_be_included<'a, 'b>(&self, path: &'a [&'b str]) -> (r: Option<
        (&'b str, &'a [&'b str]),
    >)
        requires
            self.wf(),
            path.len() >= 1,
            path[0]@ == "std"@ ==> path.len() >= 2,
        ensures
            r is Some <==> path[0]@ == "std"@ && !self@.std.contains_key(path[1]@),
            match r {
                Some((lib, rest)) => lib == path[1] && rest@ == path@.skip(2),
                None => true,
            },
    {
        if str_eq(path[0], "std") {
            match self.libs.std.get(path[1]) {
                None => Some((path[1], slice_subrange(path, 2, path.len()))),
                Some(_) => None,
            }
        } else {
            None
        }
    }
}

impl Model {
    /// A walk that succeeds has checked the entity against the origin, so a
    /// second check of the result changes nothing.
    pub proof fn lemma_resolved_is_checked<'a>(
        self,
        origin: Module,
        namespace: Namespace,
        module: Module,
        path: Seq<&'a str>,
        ignore_vis: bool,
    )
        ensures
            match self.resolve_in(origin, namespace, module, path, ignore_vis) {
                Ok(entity) => self.reachable(origin, entity.visibility) || ignore_vis,
                Err(_) => true,
            },
    {
    }
}

/// Whether `name` can stand alone as a path and then starts in the module
/// that asks: it is no library section and not `project`.
pub open spec fn plain_name(name: Seq<char>) -> bool {
    !is_section(name) && name != "project"@
}

impl Model {
    /// A function declared in a module resolves, from that module and the
    /// function namespace first, to what was declared, if the module may
    /// see it.
    pub proof fn lemma_declared_func_resolves<'a>(self, module: Module, name: &'a str)
        requires
            self.has(module),
            plain_name(name@),
            self.modules[module.0 as int].funcs.contains_key(name@),
            self.reachable(module, self.modules[module.0 as int].funcs[name@].visibility),
        ensures
            self.resolve(module, Namespace::Functions, seq![name], false) == Ok::<
                Mod<Entity<'a>>,
                ImportError<'a>,
            >(
                Mod {
                    visibility: self.modules[module.0 as int].funcs[name@].visibility,
                    module: self.modules[module.0 as int].funcs[name@].module,
                    key: Entity::Func(self.modules[module.0 as int].funcs[name@].key),
                },
            ),
    {
    }

    /// A type declared in a module resolves, from that module and the type
    /// namespace first, to what was declared, if the module may see it.
    pub proof fn lemma_declared_type_resolves<'a>(self, module: Module, name: &'a str)
        requires
            self.has(module),
            plain_name(name@),
            self.modules[module.0 as int].types.contains_key(name@),
            self.reachable(module, self.modules[module.0 as int].types[name@].visibility),
        ensures
            self.resolve(module, Namespace::Types, seq![name], false) == Ok::<
                Mod<Entity<'a>>,
                ImportError<'a>,
            >(
                Mod {
                    visibility: self.modules[module.0 as int].types[name@].visibility,
                    module: self.modules[module.0 as int].types[name@].module,
                    key: Entity::Type(self.modules[module.0 as int].types[name@].key),
                },
            ),
    {
    }

    /// A module linked in a module resolves, from that module and the module
    /// namespace first, to the linked module, if the module may see it.
    pub proof fn lemma_declared_module_resolves<'a>(self, module: Module, name: &'a str)
        requires
            self.has(module),
            plain_name(name@),
            self.modules[module.0 as int].child_modules.contains_key(name@),
            self.reachable(module, self.modules[module.0 as int].child_modules[name@].visibility),
        ensures
            self.resolve(module, Namespace::Modules, seq![name], false) == Ok::<
                Mod<Entity<'a>>,
                ImportError<'a>,
            >(
                Mod {
                    visibility: self.modules[module.0 as int].child_modules[name@].visibility,
                    module: self.modules[module.0 as int].child_modules[name@].module,
                    key: Entity::Module(self.modules[module.0 as int].child_modules[name@].key),
                },
            ),
    {
    }

    /// Whether `name` is declared both as a function and as a type in `module`.
    pub open spec fn in_both(self, module: Module, name: Seq<char>) -> bool {
        self.modules[module.0 as int].funcs.contains_key(name)
            && self.modules[module.0 as int].types.contains_key(name)
    }

    /// Resolving a name with the function namespace first and with the type
    /// namespace first gives the same, unless the name is declared in both
    /// namespaces, in the module that asks or in the prelude.
    pub proof fn lemma_func_and_type_agree<'a>(self, from: Module, name: &'a str)
        requires
            self.has(from),
            plain_name(name@),
            !self.in_both(from, name@),
            !self.in_both(spec_prelude(), name@),
        ensures
            self.resolve(from, Namespace::Functions, seq![name], false) == self.resolve(
                from,
                Namespace::Types,
                seq![name],
                false,
            ),
    {
    }

    /// Where a name is declared in both namespaces of the module that asks,
    /// and the module may see both, each priority gives the binding of its
    /// own namespace.
    pub proof fn lemma_func_and_type_differ<'a>(self, from: Module, name: &'a str)
        requires
            self.has(from),
            plain_name(name@),
            self.in_both(from, name@),
            self.reachable(from, self.modules[from.0 as int].funcs[name@].visibility),
            self.reachable(from, self.modules[from.0 as int].types[name@].visibility),
        ensures
            match self.resolve(from, Namespace::Functions, seq![name], false) {
                Ok(found) => found.key == Entity::<'a>::Func(
                    self.modules[from.0 as int].funcs[name@].key,
                ),
                Err(_) => false,
            },
            match self.resolve(from, Namespace::Types, seq![name], false) {
                Ok(found) => found.key == Entity::<'a>::Type(
                    self.modules[from.0 as int].types[name@].key,
                ),
                Err(_) => false,
            },
    {
        self.lemma_declared_func_resolves(from, name);
        self.lemma_declared_type_resolves(from, name);
    }

    /// Visibility goes by the shared root alone: of two modules with the
    /// same root, each may see what is visible to the project of the other.
    pub proof fn lemma_visibility_symmetric(self, a: Module, b: Module)
        requires
            self.same_project(a, b),
        ensures
            self.reachable(b, Visibility::Project(a)),
            self.reachable(a, Visibility::Project(b)),
    {
    }

    /// The prelude never shadows: where the walk from the start module
    /// succeeds, the result with the fallback is that of the walk.
    pub proof fn lemma_prelude_never_shadows<'a>(
        self,
        origin: Module,
        namespace: Namespace,
        start: Module,
        path: Seq<&'a str>,
        ignore_vis: bool,
    )
        requires
            self.resolve_in(origin, namespace, start, path, ignore_vis) is Ok,
        ensures
            self.with_fallback(origin, namespace, start, path, ignore_vis) == self.resolve_in(
                origin,
                namespace,
                start,
                path,
                ignore_vis,
            ),
    {
    }
}

/// The record of each accessor, with the module that hosts it.
pub open spec fn records_of(list: Seq<Accessor>) -> Seq<M<Record>> {
    Seq::new(list.len(), |i: int| M { module: list[i].module, value: list[i].key.0 })
}

fn records(list: &Vec<Accessor>) -> (r: Vec<M<Record>>)
    ensures
        r@ == records_of(list@),
{
    let mut out: Vec<M<Record>> = Vec::new();
    let mut i: usize = 0;
    while i < list.len()
        invariant
            i <= list.len(),
            out@ == records_of(list@).take(i as int),
        decreases list.len() - i,
    {
        let accessor = list[i];
        out.push(accessor.module.m(accessor.key.0));
        assert(out@ =~= records_of(list@).take(i + 1));
        i += 1;
    }
    assert(records_of(list@).take(list@.len() as int) =~= records_of(list@));
    out
}

/// The records that each name may read a field of, by name.
fn field_table(accessors: &NameTable<Vec<Accessor>>) -> (r: NameTable<Vec<M<Record>>>)
    requires
        accessors.wf(),
    ensures
        r.wf(),
        r.map().dom() == accessors.map().dom(),
        forall|name: Seq<char>| #[trigger]
            accessors.map().contains_key(name) ==> r.map()[name]@ == records_of(
                accessors.map()[name]@,
            ),
{
    let mut out: NameTable<Vec<M<Record>>> = NameTable::new();
    let mut i: usize = 0;
    proof {
        accessors.lemma_places();
    }
    while i < accessors.len()
        invariant
            i <= accessors.names().len(),
            accessors.wf(),
            out.wf(),
            accessors.names().len() == accessors.values().len(),
            accessors.names().no_duplicates(),
            forall|k: int|
                0 <= k < accessors.names().len() ==> accessors.map().contains_key(
                    #[trigger] accessors.names()[k],
                ) && accessors.map()[accessors.names()[k]] == accessors.values()[k],
            forall|name: Seq<char>| #[trigger]
                accessors.map().contains_key(name) ==> accessors.names().contains(name),
            forall|name: Seq<char>|
                out.map().contains_key(name) <==> accessors.names().take(i as int).contains(name),
            forall|k: int|
                0 <= k < i ==> out.map()[#[trigger] accessors.names()[k]]@ == records_of(
                    accessors.values()[k]@,
                ),
        decreases accessors.names().len() - i,
    {
        let name = accessors.name_at(i);
        let list = records(accessors.value_at(i));
        let ghost before = out.map();
        out.insert(name.to_owned(), list);
        proof {
            let names = accessors.names();
            let so_far = names.take(i as int);
            let with_this = names.take(i + 1);
            assert(with_this =~= so_far.push(names[i as int]));
            assert forall|n: Seq<char>| out.map().contains_key(n) <==> with_this.contains(n) by {
                if so_far.contains(n) {
                    let k = choose|k: int| 0 <= k < so_far.len() && so_far[k] == n;
                    assert(with_this[k] == n);
                }
                if n == names[i as int] {
                    assert(with_this[i as int] == n);
                }
                if with_this.contains(n) {
                    let k = choose|k: int| 0 <= k < with_this.len() && with_this[k] == n;
                    if k < i {
                        assert(so_far[k] == n);
                    }
                }
            }
            assert forall|k: int| 0 <= k < i + 1 implies out.map()[#[trigger] names[k]]@
                == records_of(accessors.values()[k]@) by {
                if k < i {
                    assert(names[k] != names[i as int]);
                }
            }
        }
        i += 1;
    }
    proof {
        let names = accessors.names();
        assert(names.take(names.len() as int) =~= names);
        assert(out.map().dom() =~= accessors.map().dom());
        assert forall|name: Seq<char>| #[trigger]
            accessors.map().contains_key(name) implies out.map()[name]@ == records_of(
            accessors.map()[name]@,
        ) by {
            let k = choose|k: int| 0 <= k < names.len() && names[k] == name;
            assert(out.map()[names[k]]@ == records_of(accessors.values()[k]@));
        }
    }
    out
}

impl Lookups {
    /// For each module, the records that each accessor name of it may read
    /// a field of.
    pub fn to_field_lookup(&self) -> (r: Vec<NameTable<Vec<M<Record>>>>)
        requires
            self.wf(),
        ensures
            r.len() == self@.modules.len(),
            forall|m: int|
                0 <= m < r.len() ==> (#[trigger] r[m]).wf() && r[m].map().dom()
                    == self@.modules[m].accessors.dom(),
            forall|m: int, name: Seq<char>|
                0 <= m < r.len() && #[trigger] self@.modules[m].accessors.contains_key(name)
                    ==> r[m].map()[name]@ == records_of(self@.modules[m].accessors[name]),
    {
        let mut out: Vec<NameTable<Vec<M<Record>>>> = Vec::new();
        let mut i: usize = 0;
        while i < self.modules.len()
            invariant
                i <= self.modules.len(),
                self.wf(),
                out.len() == i,
                forall|m: int|
                    0 <= m < i ==> (#[trigger] out[m]).wf() && out[m].map().dom()
                        == self@.modules[m].accessors.dom(),
                forall|m: int, name: Seq<char>|
                    0 <= m < i && #[trigger] self@.modules[m].accessors.contains_key(name)
                        ==> out[m].map()[name]@ == records_of(self@.modules[m].accessors[name]),
            decreases self.modules.len() - i,
        {
            let table = field_table(&self.modules[i].accessors);
            proof {
                let accessors = self.modules[i as int].accessors;
                assert(table.map().dom() =~= self@.modules[i as int].accessors.dom());
                assert forall|name: Seq<char>| #[trigger]
                    self@.modules[i as int].accessors.contains_key(name) implies table.map()[name]@
                    == records_of(self@.modules[i as int].accessors[name]) by {
                    assert(accessors.map().contains_key(name));
                }
            }
            out.push(table);
            i += 1;
        }
        out
    }
}

} // verus!

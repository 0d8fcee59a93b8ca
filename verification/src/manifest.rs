//! The rewriting of a package's manifest for publication.

use crate::document::{
    into_table, new_table, parse_toml, parsed_toml, render_toml, rendered_toml, table_insert,
    table_keys, table_remove, table_value, table_view, text_value, toml_node, value_text, Node,
};
use crate::version::{version_text, Version};
use vstd::prelude::*;
use vstd::string::*;

verus! {

/// Why a manifest cannot be rewritten: a section is not of the shape that
/// the rewriting works on.
#[derive(Clone, Copy, Debug, PartialEq, Eq, Structural)]
pub enum RewriteError {
    /// The manifest is not a table.
    DocumentNotTable,
    /// The manifest has a `package` that is not a table.
    PackageNotTable,
    /// The manifest has a `lib` that is not a table.
    LibNotTable,
    /// The manifest has `dependencies` that are not a table.
    DependenciesNotTable,
    /// A dependency by path has a `package` that is not text.
    AliasNotText,
}

/// The name under which a package is published.
pub open spec fn prefixed(name: Seq<char>) -> Seq<char> {
    "rustc-ap"@ + "-"@ + name
}

/// The description of a published package.
pub open spec fn description_text(name: Seq<char>, commit: Seq<char>) -> Seq<char> {
    "Automatically published version of the package `"@ + name
        + "` in the rust-lang/rust repository from commit "@ + commit
        + " The publishing script for this crate lives at: https://github.com/alexcrichton/rustc-auto-publish\n            "@
}

/// The `package` table of a published manifest.
pub open spec fn identity_table(
    package: Map<Seq<char>, Node>,
    name: Seq<char>,
    version: Seq<char>,
    commit: Seq<char>,
) -> Map<Seq<char>, Node> {
    package.insert("name"@, Node::Text(prefixed(name))).insert(
        "version"@,
        Node::Text(version),
    ).insert("license"@, Node::Text("MIT / Apache-2.0"@)).insert(
        "description"@,
        Node::Text(description_text(name, commit)),
    ).insert("repository"@, Node::Text("https://github.com/rust-lang/rust"@))
}

/// The first step: the identity of the package. A manifest without a
/// `package` is left as it is.
pub open spec fn identity_step(
    table: Map<Seq<char>, Node>,
    name: Seq<char>,
    version: Seq<char>,
    commit: Seq<char>,
) -> Result<Map<Seq<char>, Node>, RewriteError> {
    if !table.contains_key("package"@) {
        Ok(table)
    } else {
        match table["package"@] {
            Node::Table(package) => Ok(
                table.insert("package"@, Node::Table(identity_table(package, name, version, commit))),
            ),
            _ => Err(RewriteError::PackageNotTable),
        }
    }
}

/// The second step: the library target loses its `name` and `crate-type`.
pub open spec fn library_step(table: Map<Seq<char>, Node>) -> Result<
    Map<Seq<char>, Node>,
    RewriteError,
> {
    if !table.contains_key("lib"@) {
        Ok(table)
    } else {
        match table["lib"@] {
            Node::Table(lib) => Ok(
                table.insert("lib"@, Node::Table(lib.remove("name"@).remove("crate-type"@))),
            ),
            _ => Err(RewriteError::LibNotTable),
        }
    }
}

/// Whether a dependency is given by a path.
pub open spec fn is_path_dependency(dependency: Node) -> bool {
    dependency matches Node::Table(t) && t.contains_key("path"@)
}

/// Whether a dependency by path names its package by something else than text.
pub open spec fn alias_is_not_text(dependency: Node) -> bool {
    dependency matches Node::Table(t) && t.contains_key("path"@) && t.contains_key("package"@) && !(
    t["package"@] is Text)
}

/// A dependency by path, turned into one on the published package: no
/// `path`, `version` exactly the version of the run, and `package` the
/// published name of what it named before, or of its key where it named
/// nothing.
pub open spec fn pinned_dependency(
    key: Seq<char>,
    table: Map<Seq<char>, Node>,
    version: Seq<char>,
) -> Map<Seq<char>, Node> {
    let target = if table.contains_key("package"@) {
        table["package"@]->Text_0
    } else {
        key
    };
    table.remove("path"@).insert("version"@, Node::Text(version)).insert(
        "package"@,
        Node::Text(prefixed(target)),
    )
}

/// One dependency after the rewriting.
pub open spec fn rewritten_dependency(key: Seq<char>, dependency: Node, version: Seq<char>) -> Node {
    match dependency {
        Node::Table(t) => if t.contains_key("path"@) {
            Node::Table(pinned_dependency(key, t, version))
        } else {
            dependency
        },
        _ => dependency,
    }
}

/// The dependencies after the rewriting: the same keys, each with its
/// rewritten dependency.
pub open spec fn rewritten_dependencies(
    dependencies: Map<Seq<char>, Node>,
    version: Seq<char>,
) -> Map<Seq<char>, Node> {
    Map::new(
        |k: Seq<char>| dependencies.contains_key(k),
        |k: Seq<char>| rewritten_dependency(k, dependencies[k], version),
    )
}

/// Whether some dependency has an alias that is not text.
pub open spec fn some_alias_is_not_text(dependencies: Map<Seq<char>, Node>) -> bool {
    exists|k: Seq<char>| #[trigger] dependencies.contains_key(k) && alias_is_not_text(dependencies[k])
}

/// The third step: the dependencies.
pub open spec fn dependencies_step(table: Map<Seq<char>, Node>, version: Seq<char>) -> Result<
    Map<Seq<char>, Node>,
    RewriteError,
> {
    if !table.contains_key("dependencies"@) {
        Ok(table)
    } else {
        match table["dependencies"@] {
            Node::Table(dependencies) => if some_alias_is_not_text(dependencies) {
                Err(RewriteError::AliasNotText)
            } else {
                Ok(
                    table.insert(
                        "dependencies"@,
                        Node::Table(rewritten_dependencies(dependencies, version)),
                    ),
                )
            },
            _ => Err(RewriteError::DependenciesNotTable),
        }
    }
}

/// The three steps on the table of a manifest, in their order.
pub open spec fn rewrite_table(
    table: Map<Seq<char>, Node>,
    name: Seq<char>,
    version: Seq<char>,
    commit: Seq<char>,
) -> Result<Map<Seq<char>, Node>, RewriteError> {
    match identity_step(table, name, version, commit) {
        Err(e) => Err(e),
        Ok(named) => match library_step(named) {
            Err(e) => Err(e),
            Ok(plain) => dependencies_step(plain, version),
        },
    }
}

/// The manifest under which the package `name` is published at `version`,
/// from the sources at `commit`.
pub open spec fn rewrite_spec(
    document: Node,
    name: Seq<char>,
    version: Seq<char>,
    commit: Seq<char>,
) -> Result<Node, RewriteError> {
    match document {
        Node::Table(table) => match rewrite_table(table, name, version, commit) {
            Err(e) => Err(e),
            Ok(t) => Ok(Node::Table(t)),
        },
        _ => Err(RewriteError::DocumentNotTable),
    }
}

/// The keys of a dependency that the rewriting names are three different keys.
pub proof fn lemma_dependency_keys_differ()
    ensures
        "path"@ != "package"@,
        "path"@ != "version"@,
        "version"@ != "package"@,
{
    reveal_strlit("path");
    reveal_strlit("package");
    reveal_strlit("version");
    assert("path"@.len() == 4);
    assert("package"@.len() == 7);
    assert("version"@[0] == 'v');
    assert("package"@[0] == 'p');
}

/// The three sections that the rewriting names are three different keys.
pub proof fn lemma_section_keys_differ()
    ensures
        "package"@ != "lib"@,
        "package"@ != "dependencies"@,
        "lib"@ != "dependencies"@,
{
    reveal_strlit("package");
    reveal_strlit("lib");
    reveal_strlit("dependencies");
    assert("package"@.len() == 7);
    assert("lib"@.len() == 3);
    assert("dependencies"@.len() == 12);
}

/// The five keys of the identity are five different keys.
pub proof fn lemma_identity_keys_differ()
    ensures
        "name"@ != "version"@,
        "name"@ != "license"@,
        "name"@ != "description"@,
        "name"@ != "repository"@,
        "version"@ != "license"@,
        "version"@ != "description"@,
        "version"@ != "repository"@,
        "license"@ != "description"@,
        "license"@ != "repository"@,
        "description"@ != "repository"@,
{
    reveal_strlit("name");
    reveal_strlit("version");
    reveal_strlit("license");
    reveal_strlit("description");
    reveal_strlit("repository");
    assert("name"@.len() == 4);
    assert("version"@.len() == 7);
    assert("license"@.len() == 7);
    assert("description"@.len() == 11);
    assert("repository"@.len() == 10);
    assert("version"@[0] == 'v');
    assert("license"@[0] == 'l');
}

/// A section that the rewriting does not name is in the rewritten manifest
/// exactly if it was in the manifest before, and unchanged.
pub proof fn lemma_other_sections_unchanged(
    table: Map<Seq<char>, Node>,
    name: Seq<char>,
    version: Seq<char>,
    commit: Seq<char>,
    key: Seq<char>,
)
    requires
        rewrite_table(table, name, version, commit) is Ok,
        key != "package"@,
        key != "lib"@,
        key != "dependencies"@,
    ensures
        rewrite_table(table, name, version, commit)->Ok_0.contains_key(key) == table.contains_key(
            key,
        ),
        table.contains_key(key) ==> rewrite_table(table, name, version, commit)->Ok_0[key]
            == table[key],
{
}

/// The `package` of a rewritten manifest has the identity of the published
/// package, and every other key of it as it was.
pub proof fn lemma_identity_rewritten(
    table: Map<Seq<char>, Node>,
    name: Seq<char>,
    version: Seq<char>,
    commit: Seq<char>,
)
    requires
        rewrite_table(table, name, version, commit) is Ok,
        table.contains_key("package"@),
    ensures
        table["package"@] is Table,
        rewrite_table(table, name, version, commit)->Ok_0.contains_key("package"@),
        rewrite_table(table, name, version, commit)->Ok_0["package"@] is Table,
        ({
            let before = table["package"@]->Table_0;
            let after = rewrite_table(table, name, version, commit)->Ok_0["package"@]->Table_0;
            &&& after.contains_key("name"@) && after["name"@] == Node::Text(prefixed(name))
            &&& after.contains_key("version"@) && after["version"@] == Node::Text(version)
            &&& after.contains_key("license"@) && after["license"@] == Node::Text(
                "MIT / Apache-2.0"@,
            )
            &&& after.contains_key("description"@) && after["description"@] == Node::Text(
                description_text(name, commit),
            )
            &&& after.contains_key("repository"@) && after["repository"@] == Node::Text(
                "https://github.com/rust-lang/rust"@,
            )
            &&& forall|k: Seq<char>|
                k != "name"@ && k != "version"@ && k != "license"@ && k != "description"@ && k
                    != "repository"@ ==> (#[trigger] after.contains_key(k))
                    == before.contains_key(k) && (before.contains_key(k) ==> after[k] == before[k])
        }),
{
    lemma_section_keys_differ();
    lemma_identity_keys_differ();
}

/// The `lib` of a rewritten manifest has no `name` and no `crate-type`, and
/// every other key of it as it was.
pub proof fn lemma_library_rewritten(
    table: Map<Seq<char>, Node>,
    name: Seq<char>,
    version: Seq<char>,
    commit: Seq<char>,
)
    requires
        rewrite_table(table, name, version, commit) is Ok,
        table.contains_key("lib"@),
    ensures
        table["lib"@] is Table,
        rewrite_table(table, name, version, commit)->Ok_0.contains_key("lib"@),
        rewrite_table(table, name, version, commit)->Ok_0["lib"@] is Table,
        ({
            let before = table["lib"@]->Table_0;
            let after = rewrite_table(table, name, version, commit)->Ok_0["lib"@]->Table_0;
            &&& !after.contains_key("name"@)
            &&& !after.contains_key("crate-type"@)
            &&& forall|k: Seq<char>|
                k != "name"@ && k != "crate-type"@ ==> (#[trigger] after.contains_key(k))
                    == before.contains_key(k) && (before.contains_key(k) ==> after[k] == before[k])
        }),
{
    lemma_section_keys_differ();
}

/// The dependencies of a rewritten manifest have the keys that they had before.
/// A dependency that is not by path is unchanged. One by path has no `path`,
/// the version of the run as its `version`, as its `package` the published
/// name of the package that it named (of its own key, where it named none),
/// and every other key of it as it was.
pub proof fn lemma_dependencies_rewritten(
    table: Map<Seq<char>, Node>,
    name: Seq<char>,
    version: Seq<char>,
    commit: Seq<char>,
    key: Seq<char>,
)
    requires
        rewrite_table(table, name, version, commit) is Ok,
        table.contains_key("dependencies"@),
    ensures
        table["dependencies"@] is Table,
        rewrite_table(table, name, version, commit)->Ok_0.contains_key("dependencies"@),
        rewrite_table(table, name, version, commit)->Ok_0["dependencies"@] is Table,
        ({
            let before = table["dependencies"@]->Table_0;
            let after = rewrite_table(table, name, version, commit)->Ok_0["dependencies"@]->Table_0;
            &&& after.contains_key(key) == before.contains_key(key)
            &&& before.contains_key(key) && !is_path_dependency(before[key]) ==> after[key]
                == before[key]
            &&& before.contains_key(key) && is_path_dependency(before[key]) ==> {
                let old_entry = before[key]->Table_0;
                let target = if old_entry.contains_key("package"@) {
                    old_entry["package"@]->Text_0
                } else {
                    key
                };
                &&& after[key] is Table
                &&& old_entry.contains_key("package"@) ==> old_entry["package"@] is Text
                &&& !after[key]->Table_0.contains_key("path"@)
                &&& after[key]->Table_0.contains_key("version"@)
                &&& after[key]->Table_0["version"@] == Node::Text(version)
                &&& after[key]->Table_0.contains_key("package"@)
                &&& after[key]->Table_0["package"@] == Node::Text(prefixed(target))
                &&& forall|k: Seq<char>|
                    k != "path"@ && k != "version"@ && k != "package"@ ==> (
                    #[trigger] after[key]->Table_0.contains_key(k)) == old_entry.contains_key(k)
                        && (old_entry.contains_key(k) ==> after[key]->Table_0[k] == old_entry[k])
            }
        }),
{
    lemma_section_keys_differ();
    lemma_dependency_keys_differ();
    let before = table["dependencies"@]->Table_0;
    if before.contains_key(key) {
        assert(!alias_is_not_text(before[key]));
    }
}

/// Rewriting a rewritten manifest for the same package, version and
/// commit changes nothing.
pub proof fn lemma_rewriting_twice(
    table: Map<Seq<char>, Node>,
    name: Seq<char>,
    version: Seq<char>,
    commit: Seq<char>,
)
    requires
        rewrite_table(table, name, version, commit) is Ok,
    ensures
        rewrite_table(rewrite_table(table, name, version, commit)->Ok_0, name, version, commit)
            == rewrite_table(table, name, version, commit),
{
    lemma_section_keys_differ();
    lemma_identity_keys_differ();
    lemma_dependency_keys_differ();
    let once = rewrite_table(table, name, version, commit)->Ok_0;
    let named = identity_step(once, name, version, commit)->Ok_0;
    if table.contains_key("package"@) {
        let p = table["package"@]->Table_0;
        let q = identity_table(p, name, version, commit);
        assert(once["package"@] == Node::Table(q));
        assert(identity_table(q, name, version, commit) =~= q);
    }
    assert(identity_step(once, name, version, commit) is Ok);
    assert(named =~= once);
    if table.contains_key("lib"@) {
        let l = once["lib"@]->Table_0;
        assert(l.remove("name"@).remove("crate-type"@) =~= l);
    }
    assert(library_step(named) is Ok);
    let plain = library_step(named)->Ok_0;
    assert(plain =~= once);
    if table.contains_key("dependencies"@) {
        let before = table["dependencies"@]->Table_0;
        let d = rewritten_dependencies(before, version);
        assert(once["dependencies"@] == Node::Table(d));
        assert forall|k: Seq<char>| #[trigger] d.contains_key(k) implies !is_path_dependency(d[k]) by {
            assert(before.contains_key(k));
            assert(!alias_is_not_text(before[k]));
        }
        assert(!some_alias_is_not_text(d));
        assert(rewritten_dependencies(d, version) =~= d);
    }
    assert(dependencies_step(plain, version) is Ok);
    assert(dependencies_step(plain, version)->Ok_0 =~= once);
}

/// The name under which the package `name` is published.
pub fn prefixed_name(name: &str) -> (r: String)
    ensures
        r@ == prefixed(name@),
{
    String::from_str("rustc-ap").concat("-").concat(name)
}

/// The description of the published package `name`.
pub fn description(name: &str, commit: &str) -> (r: String)
    ensures
        r@ == description_text(name@, commit@),
{
    String::from_str("Automatically published version of the package `").concat(name).concat(
        "` in the rust-lang/rust repository from commit ",
    ).concat(commit).concat(
        " The publishing script for this crate lives at: https://github.com/alexcrichton/rustc-auto-publish\n            ",
    )
}

fn rewrite_identity(
    table: &mut toml::map::Map<String, toml::Value>,
    name: &str,
    version: &str,
    commit: &str,
) -> (r: Result<(), RewriteError>)
    ensures
        match identity_step(table_view(*old(table)), name@, version@, commit@) {
            Ok(m) => r is Ok && table_view(*final(table)) == m,
            Err(e) => r matches Err(x) && x == e,
        },
{
    let ghost before = table_view(*table);
    match table_remove(table, "package") {
        None => {
            proof {
                assert(before.remove("package"@) =~= before);
            }
            Ok(())
        },
        Some(section) => {
            match into_table(section) {
                Err(_) => Err(RewriteError::PackageNotTable),
                Ok(mut package) => {
                    table_insert(&mut package, String::from_str("name"), text_value(prefixed_name(name)));
                    table_insert(
                        &mut package,
                        String::from_str("version"),
                        text_value(String::from_str(version)),
                    );
                    table_insert(
                        &mut package,
                        String::from_str("license"),
                        text_value(String::from_str("MIT / Apache-2.0")),
                    );
                    table_insert(
                        &mut package,
                        String::from_str("description"),
                        text_value(description(name, commit)),
                    );
                    table_insert(
                        &mut package,
                        String::from_str("repository"),
                        text_value(String::from_str("https://github.com/rust-lang/rust")),
                    );
                    let section = table_value(package);
                    table_insert(table, String::from_str("package"), section);
                    proof {
                        assert(before.remove("package"@).insert("package"@, toml_node(section))
                            =~= before.insert("package"@, toml_node(section)));
                    }
                    Ok(())
                },
            }
        },
    }
}

fn rewrite_library(table: &mut toml::map::Map<String, toml::Value>) -> (r: Result<
    (),
    RewriteError,
>)
    ensures
        match library_step(table_view(*old(table))) {
            Ok(m) => r is Ok && table_view(*final(table)) == m,
            Err(e) => r matches Err(x) && x == e,
        },
{
    let ghost before = table_view(*table);
    match table_remove(table, "lib") {
        None => {
            proof {
                assert(before.remove("lib"@) =~= before);
            }
            Ok(())
        },
        Some(section) => {
            match into_table(section) {
                Err(_) => Err(RewriteError::LibNotTable),
                Ok(mut lib) => {
                    let _name = table_remove(&mut lib, "name");
                    let _kind = table_remove(&mut lib, "crate-type");
                    let section = table_value(lib);
                    table_insert(table, String::from_str("lib"), section);
                    proof {
                        assert(before.remove("lib"@).insert("lib"@, toml_node(section))
                            =~= before.insert("lib"@, toml_node(section)));
                    }
                    Ok(())
                },
            }
        },
    }
}

/// Rewrites one dependency, found under `key`.
pub fn rewrite_dependency(key: &String, dependency: toml::Value, version: &str) -> (r: Result<
    toml::Value,
    RewriteError,
>)
    ensures
        alias_is_not_text(toml_node(dependency)) ==> r matches Err(RewriteError::AliasNotText),
        !alias_is_not_text(toml_node(dependency)) ==> (r matches Ok(v) && toml_node(v)
            == rewritten_dependency(key@, toml_node(dependency), version@)),
{
    match into_table(dependency) {
        Err(other) => Ok(other),
        Ok(mut t) => {
            let ghost table = table_view(t);
            match table_remove(&mut t, "path") {
                None => {
                    proof {
                        assert(table.remove("path"@) =~= table);
                    }
                    Ok(table_value(t))
                },
                Some(_) => {
                    proof {
                        lemma_dependency_keys_differ();
                    }
                    let target = match table_remove(&mut t, "package") {
                        None => key.clone(),
                        Some(alias) => match value_text(&alias) {
                            Some(a) => a,
                            None => {
                                return Err(RewriteError::AliasNotText);
                            },
                        },
                    };
                    let full = prefixed_name(target.as_str());
                    table_insert(&mut t, String::from_str("version"), text_value(String::from_str(version)));
                    table_insert(&mut t, String::from_str("package"), text_value(full));
                    proof {
                        assert(table_view(t) =~= pinned_dependency(key@, table, version@));
                    }
                    Ok(table_value(t))
                },
            }
        },
    }
}

/// The names among the first `done` of `keys`.
pub open spec fn keys_done(keys: Seq<String>, done: int) -> Set<Seq<char>> {
    Set::new(|k: Seq<char>| exists|i: int| 0 <= i < done && 0 <= i < keys.len() && (#[trigger] keys[i])@ == k)
}

/// Rewrites every dependency of a table of dependencies.
pub fn rewrite_dependency_table(
    dependencies: toml::map::Map<String, toml::Value>,
    version: &str,
) -> (r: Result<toml::map::Map<String, toml::Value>, RewriteError>)
    ensures
        some_alias_is_not_text(table_view(dependencies)) ==> r matches Err(
            RewriteError::AliasNotText,
        ),
        !some_alias_is_not_text(table_view(dependencies)) ==> (r matches Ok(t) && table_view(t)
            == rewritten_dependencies(table_view(dependencies), version@)),
{
    let ghost all = table_view(dependencies);
    let keys = table_keys(&dependencies);
    let mut rest = dependencies;
    let mut out = new_table();
    let mut i: usize = 0;
    proof {
        assert(table_view(out) =~= rewritten_dependencies(all.restrict(keys_done(keys@, 0)), version@));
        assert(table_view(rest) =~= all.remove_keys(keys_done(keys@, 0)));
    }
    while i < keys.len()
        invariant
            all == table_view(dependencies),
            i <= keys@.len(),
            forall|k: Seq<char>|
                all.contains_key(k) <==> exists|j: int|
                    0 <= j < keys@.len() && (#[trigger] keys@[j])@ == k,
            table_view(rest) == all.remove_keys(keys_done(keys@, i as int)),
            table_view(out) == rewritten_dependencies(
                all.restrict(keys_done(keys@, i as int)),
                version@,
            ),
            forall|k: Seq<char>|
                keys_done(keys@, i as int).contains(k) && #[trigger] all.contains_key(k)
                    ==> !alias_is_not_text(all[k]),
        decreases keys@.len() - i,
    {
        let ghost done = keys_done(keys@, i as int);
        let ghost next = keys_done(keys@, i + 1);
        let ghost out_before = table_view(out);
        let key = keys[i].clone();
        proof {
            assert forall|k: Seq<char>| next.contains(k) <==> (done.contains(k) || k == key@) by {
                if next.contains(k) {
                    let j = choose|j: int| 0 <= j < i + 1 && 0 <= j < keys@.len() && (#[trigger] keys@[j])@ == k;
                    if j < i {
                        assert(keys@[j]@ == k);
                    }
                }
                if done.contains(k) {
                    let j = choose|j: int| 0 <= j < i && 0 <= j < keys@.len() && (#[trigger] keys@[j])@ == k;
                    assert(keys@[j]@ == k);
                }
                if k == key@ {
                    assert(keys@[i as int]@ == k);
                }
            }
        }
        match table_remove(&mut rest, key.as_str()) {
            None => {
                proof {
                    assert(all.contains_key(key@)) by {
                        assert(keys@[i as int]@ == key@);
                    }
                    assert(done.contains(key@));
                    assert(next =~= done);
                }
            },
            Some(dependency) => {
                proof {
                    assert(!done.contains(key@));
                    assert(all[key@] == toml_node(dependency));
                }
                match rewrite_dependency(&key, dependency, version) {
                    Err(e) => {
                        proof {
                            assert(all.contains_key(key@) && alias_is_not_text(all[key@]));
                        }
                        return Err(e);
                    },
                    Ok(rewritten) => {
                        table_insert(&mut out, key, rewritten);
                        proof {
                            assert(table_view(out) =~= rewritten_dependencies(
                                all.restrict(next),
                                version@,
                            ));
                        }
                    },
                }
            },
        }
        proof {
            assert(table_view(rest) =~= all.remove_keys(next));
        }
        i += 1;
    }
    proof {
        assert(all.restrict(keys_done(keys@, keys@.len() as int)) =~= all) by {
            assert forall|k: Seq<char>| all.contains_key(k) implies keys_done(
                keys@,
                keys@.len() as int,
            ).contains(k) by {
                let j = choose|j: int| 0 <= j < keys@.len() && (#[trigger] keys@[j])@ == k;
                assert(keys@[j]@ == k);
            }
        }
        if some_alias_is_not_text(all) {
            let k = choose|k: Seq<char>| #[trigger] all.contains_key(k) && alias_is_not_text(all[k]);
            let j = choose|j: int| 0 <= j < keys@.len() && (#[trigger] keys@[j])@ == k;
            assert(keys@[j]@ == k);
            assert(keys_done(keys@, keys@.len() as int).contains(k));
        }
    }
    Ok(out)
}

fn rewrite_dependencies(table: &mut toml::map::Map<String, toml::Value>, version: &str) -> (r:
    Result<(), RewriteError>)
    ensures
        match dependencies_step(table_view(*old(table)), version@) {
            Ok(m) => r is Ok && table_view(*final(table)) == m,
            Err(e) => r matches Err(x) && x == e,
        },
{
    let ghost before = table_view(*table);
    match table_remove(table, "dependencies") {
        None => {
            proof {
                assert(before.remove("dependencies"@) =~= before);
            }
            Ok(())
        },
        Some(section) => {
            match into_table(section) {
                Err(_) => Err(RewriteError::DependenciesNotTable),
                Ok(dependencies) => {
                    match rewrite_dependency_table(dependencies, version) {
                        Err(e) => Err(e),
                        Ok(rewritten) => {
                            let section = table_value(rewritten);
                            table_insert(table, String::from_str("dependencies"), section);
                            proof {
                                assert(before.remove("dependencies"@).insert(
                                    "dependencies"@,
                                    toml_node(section),
                                ) =~= before.insert("dependencies"@, toml_node(section)));
                            }
                            Ok(())
                        },
                    }
                },
            }
        },
    }
}

/// Rewrites a manifest for the publication of the package `pkg_name`, with
/// the version of the run given as the text `version`.
pub fn rewrite_with(manifest: toml::Value, pkg_name: &str, version: &str, source_commit: &str) -> (r:
    Result<toml::Value, RewriteError>)
    ensures
        match rewrite_spec(toml_node(manifest), pkg_name@, version@, source_commit@) {
            Ok(n) => r matches Ok(v) && toml_node(v) == n,
            Err(e) => r matches Err(x) && x == e,
        },
{
    match into_table(manifest) {
        Err(_) => Err(RewriteError::DocumentNotTable),
        Ok(mut table) => {
            match rewrite_identity(&mut table, pkg_name, version, source_commit) {
                Err(e) => {
                    return Err(e);
                },
                Ok(_) => {},
            }
            match rewrite_library(&mut table) {
                Err(e) => {
                    return Err(e);
                },
                Ok(_) => {},
            }
            match rewrite_dependencies(&mut table, version) {
                Err(e) => Err(e),
                Ok(_) => Ok(table_value(table)),
            }
        },
    }
}

/// Rewrites a manifest for the publication of the package `pkg_name` at
/// `new_version`, from the sources at `source_commit`.
pub fn rewrite(
    manifest: toml::Value,
    pkg_name: &str,
    new_version: &Version,
    source_commit: &str,
) -> (r: Result<toml::Value, RewriteError>)
    ensures
        match rewrite_spec(
            toml_node(manifest),
            pkg_name@,
            version_text(new_version.major, new_version.minor, new_version.patch),
            source_commit@,
        ) {
            Ok(n) => r matches Ok(v) && toml_node(v) == n,
            Err(e) => r matches Err(x) && x == e,
        },
{
    let text = new_version.to_text();
    rewrite_with(manifest, pkg_name, text.as_str(), source_commit)
}

/// Why the text of a manifest cannot be rewritten.
#[derive(Clone, Copy, Debug, PartialEq, Eq, Structural)]
pub enum ManifestError {
    /// The text is no document.
    Parse,
    /// The document is not of the shape that the rewriting works on.
    Shape(RewriteError),
    /// The rewritten document cannot be written as text.
    Render,
}

/// The text of the manifest under which the package `name` is published,
/// from the text of its manifest.
pub open spec fn rewrite_text_spec(
    text: Seq<char>,
    name: Seq<char>,
    version: Seq<char>,
    commit: Seq<char>,
) -> Result<Seq<char>, ManifestError> {
    match parsed_toml(text) {
        None => Err(ManifestError::Parse),
        Some(document) => match rewrite_spec(document, name, version, commit) {
            Err(e) => Err(ManifestError::Shape(e)),
            Ok(rewritten) => match rendered_toml(rewritten) {
                None => Err(ManifestError::Render),
                Some(s) => Ok(s),
            },
        },
    }
}

/// Rewrites the text of a manifest for the publication of the package
/// `pkg_name` at `new_version`, from the sources at `source_commit`.
pub fn rewrite_text(text: &str, pkg_name: &str, new_version: &Version, source_commit: &str) -> (r:
    Result<String, ManifestError>)
    ensures
        match rewrite_text_spec(
            text@,
            pkg_name@,
            version_text(new_version.major, new_version.minor, new_version.patch),
            source_commit@,
        ) {
            Ok(s) => r matches Ok(t) && t@ == s,
            Err(e) => r matches Err(x) && x == e,
        },
{
    match parse_toml(text) {
        None => Err(ManifestError::Parse),
        Some(document) => match rewrite(document, pkg_name, new_version, source_commit) {
            Err(e) => Err(ManifestError::Shape(e)),
            Ok(rewritten) => match render_toml(&rewritten) {
                None => Err(ManifestError::Render),
                Some(s) => Ok(s),
            },
        },
    }
}

} // verus!

//! The configuration that a sequence of directives describes: the options
//! that stand before any `Host` line, and the options of each host.

use crate::sorted_map::SortedMap;
use crate::ssh_config::parser::{
    directive_views, has_arguments, lemma_parsed_arguments, parse, ssh_config_value_parser,
    Directive, DirectiveView, Keyword, ParseError,
};
use crate::text::texts;
use vstd::prelude::*;

verus! {

/// The options of one scope of the file: of one host, or of no host.
#[derive(Debug, Clone)]
pub struct SSHConfigValues {
    /// The name of the host, or `None` for the options that belong to none.
    pub host: Option<String>,
    /// The first argument of the last `Hostname` directive of the scope.
    pub hostname: Option<String>,
    /// The arguments of the last directive of each keyword, by the name of
    /// the keyword in lower case.
    pub other_options: SortedMap<Vec<String>>,
}

/// The mathematical value of an `SSHConfigValues`.
pub struct ConfigValuesView {
    pub host: Option<Seq<char>>,
    pub hostname: Option<Seq<char>>,
    pub other_options: Map<Seq<char>, Seq<Seq<char>>>,
}

/// The characters of an optional string.
pub open spec fn text_of(string: Option<String>) -> Option<Seq<char>> {
    match string {
        Some(s) => Some(s@),
        None => None,
    }
}

impl ConfigValuesView {
    /// The scope of no host, without options.
    pub open spec fn empty() -> ConfigValuesView {
        ConfigValuesView { host: None, hostname: None, other_options: Map::empty() }
    }

    /// The scope of the host `host`, without options.
    pub open spec fn of_host(host: Seq<char>) -> ConfigValuesView {
        ConfigValuesView { host: Some(host), hostname: None, other_options: Map::empty() }
    }

    /// The scope after `directive` was met in it: the arguments are filed under
    /// the name of the keyword, in place of any that were there, and a
    /// `Hostname` directive also sets the host's address to its first
    /// argument.
    pub open spec fn record(self, directive: DirectiveView) -> ConfigValuesView {
        ConfigValuesView {
            host: self.host,
            hostname: if directive.keyword is Hostname {
                Some(directive.arguments[0])
            } else {
                self.hostname
            },
            other_options: self.other_options.insert(directive.keyword.name(), directive.arguments),
        }
    }
}

impl View for SSHConfigValues {
    type V = ConfigValuesView;

    open spec fn view(&self) -> ConfigValuesView {
        ConfigValuesView {
            host: text_of(self.host),
            hostname: text_of(self.hostname),
            other_options: self.other_options@.map_values(|list: Vec<String>| texts(list@)),
        }
    }
}

impl SSHConfigValues {
    /// The value is well formed: its map of options is.
    pub open spec fn wf(&self) -> bool {
        self.other_options.wf()
    }

    /// The scope of no host, without options.
    pub fn new() -> (values: Self)
        ensures
            values.wf(),
            values@ == ConfigValuesView::empty(),
    {
        let values = SSHConfigValues { host: None, hostname: None, other_options: SortedMap::new() };
        assert(values@.other_options =~= Map::empty());
        values
    }

    /// The scope of the host `host`, without options.
    pub fn with_host(host: String) -> (values: Self)
        ensures
            values.wf(),
            values@ == ConfigValuesView::of_host(host@),
    {
        let values = SSHConfigValues {
            host: Some(host),
            hostname: None,
            other_options: SortedMap::new(),
        };
        assert(values@.other_options =~= Map::empty());
        values
    }

    /// Files `arguments` under `key`, in place of any that were there.
    pub fn insert_config(&mut self, key: String, arguments: Vec<String>)
        requires
            old(self).wf(),
        ensures
            final(self).wf(),
            final(self)@ == (ConfigValuesView {
                other_options: old(self)@.other_options.insert(key@, texts(arguments@)),
                ..old(self)@
            }),
    {
        self.other_options.insert(key, arguments);
        assert(self@.other_options =~= old(self)@.other_options.insert(key@, texts(arguments@)));
    }

    /// Takes note of a directive that was met in this scope.
    pub fn record(&mut self, directive: Directive)
        requires
            old(self).wf(),
            directive@.keyword is Hostname ==> directive@.arguments.len() > 0,
        ensures
            final(self).wf(),
            final(self)@ == old(self)@.record(directive@),
    {
        let Directive { keyword, arguments } = directive;
        if let Keyword::Hostname = keyword {
            self.hostname = Some(arguments[0].clone());
        }
        self.insert_config(keyword.name(), arguments);
    }
}

/// What a configuration file says: the options of no host, and the options
/// of each host by its name.
#[derive(Debug, Clone)]
pub struct SSHConfig {
    /// The options that stand before the first `Host` line.
    pub global_config: SSHConfigValues,
    /// The options of each host, under the first argument of its `Host` lines.
    pub host_specific_config: SortedMap<SSHConfigValues>,
}

/// The mathematical value of an `SSHConfig`.
pub struct ConfigView {
    pub global_config: ConfigValuesView,
    pub host_specific_config: Map<Seq<char>, ConfigValuesView>,
}

impl View for SSHConfig {
    type V = ConfigView;

    open spec fn view(&self) -> ConfigView {
        ConfigView {
            global_config: self.global_config@,
            host_specific_config: self.host_specific_config@.map_values(
                |values: SSHConfigValues| values@,
            ),
        }
    }
}

/// A configuration under construction: what the directives so far said, and
/// the scope that the next directive falls into, `None` before the first
/// `Host` line and the name of the host after one.
pub struct Building {
    pub config: ConfigView,
    pub scope: Option<Seq<char>>,
}

/// The directive can be filed: a `Host` or `Hostname` directive has the
/// argument that it is about.
pub open spec fn has_subject(directive: DirectiveView) -> bool {
    directive.keyword is Host || directive.keyword is Hostname ==> directive.arguments.len() > 0
}

impl Building {
    /// Nothing read yet.
    pub open spec fn start() -> Building {
        Building {
            config: ConfigView {
                global_config: ConfigValuesView::empty(),
                host_specific_config: Map::empty(),
            },
            scope: None,
        }
    }

    /// The construction after one more directive. A `Host` directive moves the
    /// scope to the host that its first argument names, which gets an entry
    /// without options unless it has one already. Then the directive, `Host`
    /// too, is recorded in the scope.
    pub open spec fn step(self, directive: DirectiveView) -> Building {
        let scope = if directive.keyword is Host {
            Some(directive.arguments[0])
        } else {
            self.scope
        };
        match scope {
            None => Building {
                config: ConfigView {
                    global_config: self.config.global_config.record(directive),
                    ..self.config
                },
                scope,
            },
            Some(name) => {
                let hosts = self.config.host_specific_config;
                let entry = if hosts.contains_key(name) {
                    hosts[name]
                } else {
                    ConfigValuesView::of_host(name)
                };
                Building {
                    config: ConfigView {
                        host_specific_config: hosts.insert(name, entry.record(directive)),
                        ..self.config
                    },
                    scope,
                }
            },
        }
    }

    /// The construction after all of `directives`, from first to last.
    pub open spec fn after(directives: Seq<DirectiveView>) -> Building
        decreases directives.len(),
    {
        if directives.len() == 0 {
            Building::start()
        } else {
            Building::after(directives.drop_last()).step(directives.last())
        }
    }
}

/// The configuration that a sequence of directives describes.
pub open spec fn build_config(directives: Seq<DirectiveView>) -> ConfigView {
    Building::after(directives).config
}

/// Whatever the directives, the scope is a host that has an entry, each
/// entry bears the name of the host that it is filed under, and the options
/// of no host bear no name.
pub proof fn lemma_entries_are_named(directives: Seq<DirectiveView>)
    ensures
        Building::after(directives).config.global_config.host is None,
        Building::after(directives).scope matches Some(name) ==> Building::after(
            directives,
        ).config.host_specific_config.contains_key(name),
        forall|name: Seq<char>| #[trigger]
            Building::after(directives).config.host_specific_config.contains_key(name)
                ==> Building::after(directives).config.host_specific_config[name].host == Some(
                name,
            ),
    decreases directives.len(),
{
    if directives.len() > 0 {
        lemma_entries_are_named(directives.drop_last());
    }
}

/// The names and addresses that a configuration holds are not empty, if no
/// argument of the directives is: neither the name of a host that has an
/// entry, nor the address of a host, nor the address among the options of no
/// host.
pub proof fn lemma_names_are_not_empty(directives: Seq<DirectiveView>)
    requires
        forall|i: int| 0 <= i < directives.len() ==> has_arguments(#[trigger] directives[i]),
    ensures
        ({
            let config = build_config(directives);
            &&& config.global_config.hostname matches Some(address) ==> address.len() > 0
            &&& forall|name: Seq<char>| #[trigger]
                config.host_specific_config.contains_key(name) ==> {
                    &&& name.len() > 0
                    &&& config.host_specific_config[name].hostname matches Some(address)
                        ==> address.len() > 0
                }
        }),
    decreases directives.len(),
{
    if directives.len() > 0 {
        let earlier = directives.drop_last();
        assert forall|i: int| 0 <= i < earlier.len() implies has_arguments(#[trigger] earlier[i]) by {
            assert(earlier[i] == directives[i]);
        }
        lemma_names_are_not_empty(earlier);
        lemma_entries_are_named(earlier);
        assert(has_arguments(directives[directives.len() - 1]));
        assert(directives.last().arguments[0].len() > 0);
    }
}

/// A `Host` line opens the section of the host that its first argument
/// names. If the host has a section already, that section goes on: the host
/// keeps its one entry with its address and its options, and only the
/// arguments of the `Host` line itself are filed anew. No other entry changes.
pub proof fn lemma_host_line(directives: Seq<DirectiveView>, line: DirectiveView)
    requires
        line.keyword is Host,
    ensures
        ({
            let before = Building::after(directives).config;
            let after = Building::after(directives.push(line));
            let name = line.arguments[0];
            let entry = after.config.host_specific_config[name];
            &&& after.scope == Some(name)
            &&& after.config.global_config == before.global_config
            &&& after.config.host_specific_config.dom() == before.host_specific_config.dom().insert(
                name,
            )
            &&& forall|other: Seq<char>|
                other != name && #[trigger] before.host_specific_config.contains_key(other)
                    ==> after.config.host_specific_config[other] == before.host_specific_config[other]
            &&& entry.host == Some(name)
            &&& entry.other_options.contains_key("host"@)
            &&& entry.other_options["host"@] == line.arguments
            &&& before.host_specific_config.contains_key(name) ==> {
                let earlier = before.host_specific_config[name];
                &&& entry.hostname == earlier.hostname
                &&& entry.other_options == earlier.other_options.insert("host"@, line.arguments)
            }
            &&& !before.host_specific_config.contains_key(name) ==> {
                &&& entry.hostname is None
                &&& entry.other_options == Map::<Seq<char>, Seq<Seq<char>>>::empty().insert(
                    "host"@,
                    line.arguments,
                )
            }
        }),
{
    assert(directives.push(line).drop_last() =~= directives);
    lemma_entries_are_named(directives);
    let before = Building::after(directives).config;
    let after = Building::after(directives.push(line));
    assert(after.config.host_specific_config.dom() =~= before.host_specific_config.dom().insert(
        line.arguments[0],
    ));
}

/// A line that is no `Host` line is recorded in the scope that the lines
/// before it left, the options of no host or the entry of a host, and changes
/// nothing else.
pub proof fn lemma_other_line(directives: Seq<DirectiveView>, line: DirectiveView)
    requires
        !(line.keyword is Host),
    ensures
        ({
            let before = Building::after(directives);
            let after = Building::after(directives.push(line));
            &&& after.scope == before.scope
            &&& match before.scope {
                None => {
                    &&& after.config.global_config == before.config.global_config.record(line)
                    &&& after.config.host_specific_config == before.config.host_specific_config
                },
                Some(name) => {
                    &&& after.config.global_config == before.config.global_config
                    &&& before.config.host_specific_config.contains_key(name)
                    &&& after.config.host_specific_config
                        == before.config.host_specific_config.insert(
                        name,
                        before.config.host_specific_config[name].record(line),
                    )
                },
            }
        }),
{
    assert(directives.push(line).drop_last() =~= directives);
    lemma_entries_are_named(directives);
}

/// Before the first `Host` line there is no host: directives without a
/// `Host` line among them leave the configuration without entries for hosts,
/// and the scope with no host.
pub proof fn lemma_before_first_host(directives: Seq<DirectiveView>)
    requires
        forall|i: int| 0 <= i < directives.len() ==> !((#[trigger] directives[i]).keyword is Host),
    ensures
        Building::after(directives).scope is None,
        Building::after(directives).config.host_specific_config == Map::<
            Seq<char>,
            ConfigValuesView,
        >::empty(),
    decreases directives.len(),
{
    if directives.len() > 0 {
        let earlier = directives.drop_last();
        assert forall|i: int| 0 <= i < earlier.len() implies !((#[trigger] earlier[i]).keyword is Host) by {
            assert(earlier[i] == directives[i]);
        }
        lemma_before_first_host(earlier);
        assert(!(directives[directives.len() - 1].keyword is Host));
    }
}

/// Directives before the first `Host` line land in the options of no host:
/// among directives without a `Host` line, the arguments of each are what is
/// filed under the name of its keyword, unless a later one has that name.
pub proof fn lemma_global_directive(directives: Seq<DirectiveView>, at: int)
    requires
        0 <= at < directives.len(),
        forall|i: int| 0 <= i < directives.len() ==> !((#[trigger] directives[i]).keyword is Host),
        forall|i: int|
            at < i < directives.len() ==> (#[trigger] directives[i]).keyword.name()
                != directives[at].keyword.name(),
    ensures
        build_config(directives).global_config.other_options.contains_key(
            directives[at].keyword.name(),
        ),
        build_config(directives).global_config.other_options[directives[at].keyword.name()]
            == directives[at].arguments,
    decreases directives.len(),
{
    let earlier = directives.drop_last();
    assert forall|i: int| 0 <= i < earlier.len() implies !((#[trigger] earlier[i]).keyword is Host) by {
        assert(earlier[i] == directives[i]);
    }
    lemma_before_first_host(earlier);
    assert(!(directives[directives.len() - 1].keyword is Host));
    if at < directives.len() - 1 {
        assert forall|i: int| at < i < earlier.len() implies (#[trigger] earlier[i]).keyword.name()
            != earlier[at].keyword.name() by {
            assert(earlier[i] == directives[i]);
        }
        lemma_global_directive(earlier, at);
        assert(directives[directives.len() - 1].keyword.name() != directives[at].keyword.name());
    }
}

/// The configuration that a text describes, or the position at which the
/// text stops being a sequence of directives.
pub open spec fn load_config(text: Seq<char>) -> Result<ConfigView, int> {
    match parse(text) {
        Ok(directives) => Ok(build_config(directives)),
        Err(position) => Err(position),
    }
}

impl SSHConfig {
    /// The configuration is well formed: its maps are, and each host's entry
    /// bears the name that it is filed under.
    pub open spec fn wf(&self) -> bool {
        &&& self.global_config.wf()
        &&& self.host_specific_config.wf()
        &&& forall|name: Seq<char>| #[trigger]
            self.host_specific_config@.contains_key(name) ==> self.host_specific_config@[name].wf()
                && self.host_specific_config@[name]@.host == Some(name)
    }

    /// Builds the configuration that `parsed_key_values` describe. A `Host` or
    /// `Hostname` directive is about its first argument and must have one; the
    /// parser gives no directive without.
    pub fn from_parser(parsed_key_values: Vec<Directive>) -> (config: Self)
        requires
            forall|i: int|
                0 <= i < parsed_key_values@.len() ==> has_subject(
                    #[trigger] parsed_key_values@[i]@,
                ),
        ensures
            config.wf(),
            config@ == build_config(directive_views(parsed_key_values@)),
    {
        let ghost all = directive_views(parsed_key_values@);
        let mut config = SSHConfig {
            global_config: SSHConfigValues::new(),
            host_specific_config: SortedMap::new(),
        };
        let mut scope: Option<String> = None;
        let ghost mut done: Seq<DirectiveView> = Seq::empty();
        assert(config@.host_specific_config =~= Map::empty());
        for directive in it: parsed_key_values
            invariant
                it.seq() == parsed_key_values@,
                all == directive_views(parsed_key_values@),
                forall|i: int|
                    0 <= i < parsed_key_values@.len() ==> has_subject(
                        #[trigger] parsed_key_values@[i]@,
                    ),
                done == all.take(it.index() as int),
                config.wf(),
                Building::after(done) == (Building { config: config@, scope: text_of(scope) }),
                scope matches Some(name) ==> config.host_specific_config@.contains_key(name@),
        {
            let ghost earlier = Building::after(done);
            let ghost hosts_then = config.host_specific_config@;
            proof {
                let next = all.take(it.index() + 1);
                assert(next.drop_last() =~= done);
                assert(next.last() == directive@);
                assert(has_subject(parsed_key_values@[it.index() as int]@));
                done = next;
                assert(Building::after(done) == earlier.step(directive@));
            }
            if let Keyword::Host = directive.keyword {
                let name = directive.arguments[0].clone();
                if !config.host_specific_config.contains_key(name.as_str()) {
                    config.host_specific_config.insert(
                        name.clone(),
                        SSHConfigValues::with_host(name.clone()),
                    );
                }
                scope = Some(name);
            }
            match &scope {
                None => {
                    config.global_config.record(directive);
                },
                Some(name) => {
                    match config.host_specific_config.position(name.as_str()) {
                        Some(index) => {
                            let ghost before = config.host_specific_config@;
                            proof {
                                config.host_specific_config.lemma_entries();
                                assert(before.contains_key(name@));
                                assert(before[name@]@ == if hosts_then.contains_key(name@) {
                                    hosts_then[name@]@
                                } else {
                                    ConfigValuesView::of_host(name@)
                                });
                            }
                            config.host_specific_config.value_mut(index).record(directive);
                            proof {
                                let entry = before[name@];
                                let after = config.host_specific_config@;
                                assert(after == before.insert(name@, after[name@]));
                                assert(after[name@]@ == entry@.record(directive@));
                                assert(config@.host_specific_config
                                    =~= earlier.config.host_specific_config.insert(
                                    name@,
                                    entry@.record(directive@),
                                ));
                                assert forall|key: Seq<char>| #[trigger]
                                    after.contains_key(key) implies after[key].wf()
                                    && after[key]@.host == Some(key) by {
                                    if key != name@ {
                                        assert(before.contains_key(key));
                                    }
                                }
                            }
                        },
                        None => {},
                    }
                },
            }
        }
        proof {
            assert(done =~= all);
        }
        config
    }

    /// Reads a configuration from the text of a file. The text must be
    /// directives and whitespace from beginning to end.
    pub fn from_string(str: &str) -> (outcome: Result<Self, ParseError>)
        ensures
            match outcome {
                Ok(config) => config.wf() && load_config(str@) == Ok::<_, int>(config@),
                Err(error) => load_config(str@) == Err::<ConfigView, _>(error.offset as int)
                    && error.offset < str@.len() && error.remaining@ == str@.subrange(
                    error.offset as int,
                    str@.len() as int,
                ),
            },
    {
        match ssh_config_value_parser(str) {
            Ok(ssh_key_values) => {
                proof {
                    lemma_parsed_arguments(str@);
                    let directives = directive_views(ssh_key_values@);
                    assert forall|i: int| 0 <= i < ssh_key_values@.len() implies has_subject(
                        #[trigger] ssh_key_values@[i]@,
                    ) by {
                        assert(has_arguments(directives[i]));
                    }
                }
                Ok(Self::from_parser(ssh_key_values))
            },
            Err(error) => Err(error),
        }
    }
}

} // verus!

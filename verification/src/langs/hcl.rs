//! HCL (Terraform) queries.
use vstd::prelude::*;

use super::IGNORE;
use crate::strs::push_str;

verus! {

/// A prepared query for HCL, naming the parts of a file to scope to.
#[derive(Debug, Clone, Copy, PartialEq, Eq)]
pub enum PreparedQuery {
    /// `variable` blocks.
    Variable,
    /// `resource` blocks.
    Resource,
    /// `data` blocks.
    Data,
    /// `output` blocks.
    Output,
    /// `provider` blocks.
    Provider,
    /// `terraform` blocks.
    Terraform,
    /// `locals` blocks.
    Locals,
    /// `module` blocks.
    Module,
    /// Variable declarations and usages, by name.
    Variables,
    /// Resource names, in declarations and usages.
    ResourceNames,
    /// Resource types, in declarations and usages.
    ResourceTypes,
    /// Data source names, in declarations and usages.
    DataNames,
    /// Data source providers, in declarations and usages.
    DataSources,
    /// Comments.
    Comments,
    /// Literal strings.
    Strings,
}

/// The query text of a prepared query; captures whose names start with [`IGNORE`] are
/// not scoped to.
pub open spec fn query_text(q: PreparedQuery) -> Seq<char> {
    match q {
        PreparedQuery::Variable => "\n                    (block\n                        (identifier) @name\n                        (#eq? @name \"variable\")\n                    ) @block\n                "@,
        PreparedQuery::Resource => "\n                    (block\n                        (identifier) @name\n                        (#eq? @name \"resource\")\n                    ) @block\n                "@,
        PreparedQuery::Data => "\n                    (block\n                        (identifier) @name\n                        (#eq? @name \"data\")\n                    ) @block\n                "@,
        PreparedQuery::Output => "\n                    (block\n                        (identifier) @name\n                        (#eq? @name \"output\")\n                    ) @block\n                "@,
        PreparedQuery::Provider => "\n                    (block\n                        (identifier) @name\n                        (#eq? @name \"provider\")\n                    ) @block\n                "@,
        PreparedQuery::Terraform => "\n                    (block\n                        (identifier) @name\n                        (#eq? @name \"terraform\")\n                    ) @block\n                "@,
        PreparedQuery::Locals => "\n                    (block\n                        (identifier) @name\n                        (#eq? @name \"locals\")\n                    ) @block\n                "@,
        PreparedQuery::Module => "\n                    (block\n                        (identifier) @name\n                        (#eq? @name \"module\")\n                    ) @block\n                "@,
        PreparedQuery::Variables => "\n                        [\n                            (block\n                                (identifier) @"@ + IGNORE@ + ".declaration\n                                (string_lit (template_literal) @name.declaration)\n                                (#match? @"@ + IGNORE@ + ".declaration \"variable\")\n                            )\n                            (\n                                (variable_expr\n                                    (identifier) @"@ + IGNORE@ + ".usage\n                                    (#match? @"@ + IGNORE@ + ".usage \"var\")\n                                )\n                                .\n                                (get_attr\n                                    (identifier) @name.usage\n                                )\n                            )\n                        ]\n                    "@,
        PreparedQuery::ResourceNames => "\n                        [\n                            (block\n                                (identifier) @"@ + IGNORE@ + ".declaration\n                                (string_lit)\n                                (string_lit (template_literal) @name.declaration)\n                                (#match? @"@ + IGNORE@ + ".declaration \"resource\")\n                            )\n                            (\n                                (variable_expr\n                                    (identifier) @"@ + IGNORE@ + ".usage\n                                    (#not-any-of? @"@ + IGNORE@ + ".usage\n                                        \"var\"\n                                        \"data\"\n                                        \"count\"\n                                        \"module\"\n                                        \"local\"\n                                    )\n                                )\n                                .\n                                (get_attr\n                                    (identifier) @name.usage\n                                )\n                            )\n                        ]\n                    "@,
        PreparedQuery::ResourceTypes => "\n                        [\n                            (block\n                                (identifier) @"@ + IGNORE@ + ".declaration\n                                (string_lit (template_literal) @name.type)\n                                (string_lit)\n                                (#match? @"@ + IGNORE@ + ".declaration \"resource\")\n                            )\n                            (\n                                (variable_expr\n                                    .\n                                    (identifier) @name.usage\n                                    (#not-any-of? @name.usage\n                                        \"var\"\n                                        \"data\"\n                                        \"count\"\n                                        \"module\"\n                                        \"local\"\n                                    )\n                                )\n                                .\n                                (get_attr\n                                    (identifier)\n                                )\n                            )\n                        ]\n                    "@,
        PreparedQuery::DataNames => "\n                        [\n                            (block\n                                (identifier) @"@ + IGNORE@ + ".declaration\n                                (string_lit)\n                                (string_lit (template_literal) @name.declaration)\n                                (#match? @"@ + IGNORE@ + ".declaration \"data\")\n                            )\n                            (\n                                (variable_expr\n                                    (identifier) @"@ + IGNORE@ + ".usage\n                                    (#match? @"@ + IGNORE@ + ".usage \"data\")\n                                )\n                                .\n                                (get_attr\n                                    (identifier)\n                                )\n                                .\n                                (get_attr\n                                    (identifier) @name.usage\n                                )\n                            )\n                        ]\n                    "@,
        PreparedQuery::DataSources => "\n                        [\n                            (block\n                                (identifier) @"@ + IGNORE@ + ".declaration\n                                (string_lit (template_literal) @name.provider)\n                                (string_lit)\n                                (#match? @"@ + IGNORE@ + ".declaration \"data\")\n                            )\n                            (\n                                (variable_expr\n                                    (identifier) @"@ + IGNORE@ + ".usage\n                                    (#match? @"@ + IGNORE@ + ".usage \"data\")\n                                )\n                                .\n                                (get_attr\n                                    (identifier) @name.provider\n                                )\n                                .\n                                (get_attr\n                                    (identifier)\n                                )\n                            )\n                        ]\n                    "@,
        PreparedQuery::Comments => "(comment) @comment"@,
        PreparedQuery::Strings => "\n                [\n                    (literal_value\n                        (string_lit\n                            (template_literal) @string.literal\n                        )\n                    )\n                    (quoted_template\n                        (template_literal) @string.template_literal\n                    )\n                    (heredoc_template\n                        (template_literal) @string.heredoc_literal\n                    )\n                ]\n                "@,
    }
}

impl PreparedQuery {
    /// The query text (see [`query_text`]).
    pub fn as_str(self) -> (r: String)
        ensures
            r@ == query_text(self),
    {
        let mut s = String::new();
        match self {
            PreparedQuery::Variable => {
                push_str(&mut s, "\n                    (block\n                        (identifier) @name\n                        (#eq? @name \"variable\")\n                    ) @block\n                ");
                proof {
                    assert(s@ =~= query_text(self));
                }
            },
            PreparedQuery::Resource => {
                push_str(&mut s, "\n                    (block\n                        (identifier) @name\n                        (#eq? @name \"resource\")\n                    ) @block\n                ");
                proof {
                    assert(s@ =~= query_text(self));
                }
            },
            PreparedQuery::Data => {
                push_str(&mut s, "\n                    (block\n                        (identifier) @name\n                        (#eq? @name \"data\")\n                    ) @block\n                ");
                proof {
                    assert(s@ =~= query_text(self));
                }
            },
            PreparedQuery::Output => {
                push_str(&mut s, "\n                    (block\n                        (identifier) @name\n                        (#eq? @name \"output\")\n                    ) @block\n                ");
                proof {
                    assert(s@ =~= query_text(self));
                }
            },
            PreparedQuery::Provider => {
                push_str(&mut s, "\n                    (block\n                        (identifier) @name\n                        (#eq? @name \"provider\")\n                    ) @block\n                ");
                proof {
                    assert(s@ =~= query_text(self));
                }
            },
            PreparedQuery::Terraform => {
                push_str(&mut s, "\n                    (block\n                        (identifier) @name\n                        (#eq? @name \"terraform\")\n                    ) @block\n                ");
                proof {
                    assert(s@ =~= query_text(self));
                }
            },
            PreparedQuery::Locals => {
                push_str(&mut s, "\n                    (block\n                        (identifier) @name\n                        (#eq? @name \"locals\")\n                    ) @block\n                ");
                proof {
                    assert(s@ =~= query_text(self));
                }
            },
            PreparedQuery::Module => {
                push_str(&mut s, "\n                    (block\n                        (identifier) @name\n                        (#eq? @name \"module\")\n                    ) @block\n                ");
                proof {
                    assert(s@ =~= query_text(self));
                }
            },
            PreparedQuery::Variables => {
                push_str(&mut s, "\n                        [\n                            (block\n                                (identifier) @");
                push_str(&mut s, IGNORE);
                push_str(&mut s, ".declaration\n                                (string_lit (template_literal) @name.declaration)\n                                (#match? @");
                push_str(&mut s, IGNORE);
                push_str(&mut s, ".declaration \"variable\")\n                            )\n                            (\n                                (variable_expr\n                                    (identifier) @");
                push_str(&mut s, IGNORE);
                push_str(&mut s, ".usage\n                                    (#match? @");
                push_str(&mut s, IGNORE);
                push_str(&mut s, ".usage \"var\")\n                                )\n                                .\n                                (get_attr\n                                    (identifier) @name.usage\n                                )\n                            )\n                        ]\n                    ");
                proof {
                    assert(s@ =~= query_text(self));
                }
            },
            PreparedQuery::ResourceNames => {
                push_str(&mut s, "\n                        [\n                            (block\n                                (identifier) @");
                push_str(&mut s, IGNORE);
                push_str(&mut s, ".declaration\n                                (string_lit)\n                                (string_lit (template_literal) @name.declaration)\n                                (#match? @");
                push_str(&mut s, IGNORE);
                push_str(&mut s, ".declaration \"resource\")\n                            )\n                            (\n                                (variable_expr\n                                    (identifier) @");
                push_str(&mut s, IGNORE);
                push_str(&mut s, ".usage\n                                    (#not-any-of? @");
                push_str(&mut s, IGNORE);
                push_str(&mut s, ".usage\n                                        \"var\"\n                                        \"data\"\n                                        \"count\"\n                                        \"module\"\n                                        \"local\"\n                                    )\n                                )\n                                .\n                                (get_attr\n                                    (identifier) @name.usage\n                                )\n                            )\n                        ]\n                    ");
                proof {
                    assert(s@ =~= query_text(self));
                }
            },
            PreparedQuery::ResourceTypes => {
                push_str(&mut s, "\n                        [\n                            (block\n                                (identifier) @");
                push_str(&mut s, IGNORE);
                push_str(&mut s, ".declaration\n                                (string_lit (template_literal) @name.type)\n                                (string_lit)\n                                (#match? @");
                push_str(&mut s, IGNORE);
                push_str(&mut s, ".declaration \"resource\")\n                            )\n                            (\n                                (variable_expr\n                                    .\n                                    (identifier) @name.usage\n                                    (#not-any-of? @name.usage\n                                        \"var\"\n                                        \"data\"\n                                        \"count\"\n                                        \"module\"\n                                        \"local\"\n                                    )\n                                )\n                                .\n                                (get_attr\n                                    (identifier)\n                                )\n                            )\n                        ]\n                    ");
                proof {
                    assert(s@ =~= query_text(self));
                }
            },
            PreparedQuery::DataNames => {
                push_str(&mut s, "\n                        [\n                            (block\n                                (identifier) @");
                push_str(&mut s, IGNORE);
                push_str(&mut s, ".declaration\n                                (string_lit)\n                                (string_lit (template_literal) @name.declaration)\n                                (#match? @");
                push_str(&mut s, IGNORE);
                push_str(&mut s, ".declaration \"data\")\n                            )\n                            (\n                                (variable_expr\n                                    (identifier) @");
                push_str(&mut s, IGNORE);
                push_str(&mut s, ".usage\n                                    (#match? @");
                push_str(&mut s, IGNORE);
                push_str(&mut s, ".usage \"data\")\n                                )\n                                .\n                                (get_attr\n                                    (identifier)\n                                )\n                                .\n                                (get_attr\n                                    (identifier) @name.usage\n                                )\n                            )\n                        ]\n                    ");
                proof {
                    assert(s@ =~= query_text(self));
                }
            },
            PreparedQuery::DataSources => {
                push_str(&mut s, "\n                        [\n                            (block\n                                (identifier) @");
                push_str(&mut s, IGNORE);
                push_str(&mut s, ".declaration\n                                (string_lit (template_literal) @name.provider)\n                                (string_lit)\n                                (#match? @");
                push_str(&mut s, IGNORE);
                push_str(&mut s, ".declaration \"data\")\n                            )\n                            (\n                                (variable_expr\n                                    (identifier) @");
                push_str(&mut s, IGNORE);
                push_str(&mut s, ".usage\n                                    (#match? @");
                push_str(&mut s, IGNORE);
                push_str(&mut s, ".usage \"data\")\n                                )\n                                .\n                                (get_attr\n                                    (identifier) @name.provider\n                                )\n                                .\n                                (get_attr\n                                    (identifier)\n                                )\n                            )\n                        ]\n                    ");
                proof {
                    assert(s@ =~= query_text(self));
                }
            },
            PreparedQuery::Comments => {
                push_str(&mut s, "(comment) @comment");
                proof {
                    assert(s@ =~= query_text(self));
                }
            },
            PreparedQuery::Strings => {
                push_str(&mut s, "\n                [\n                    (literal_value\n                        (string_lit\n                            (template_literal) @string.literal\n                        )\n                    )\n                    (quoted_template\n                        (template_literal) @string.template_literal\n                    )\n                    (heredoc_template\n                        (template_literal) @string.heredoc_literal\n                    )\n                ]\n                ");
                proof {
                    assert(s@ =~= query_text(self));
                }
            },
        }
        s
    }
}

} // verus!

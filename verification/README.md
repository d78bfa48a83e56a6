# astra-sandbox

Risk analysis of shell command lines, verified with Verus. A command is parsed with
`tree-sitter` and its Bash grammar; its risks are read off the syntax tree, and each is
reported once. Scripts that a command hands to another shell (`sh -c '...'`) are analysed in
turn, sixteen levels deep; a script that is deeper, or that the command line does not show, is
reported as remote code.

- `src/grammar.rs`: the boundary to `tree-sitter`. What the library trusts of it stands here.
- `src/syntax.rs`: syntax trees as plain values, and `parse_bash`.
- `src/text.rs`, `src/pieces.rs`: trimming, splitting and searching of text.
- `src/words.rs`, `src/nested.rs`: which program a command runs, and which script it hands to a
  shell.
- `src/commands.rs`: the commands in a tree, each with its executable and all its arguments.
- `src/omission.rs`, `src/redirects.rs`: the text of a node without its string literals, and where
  the redirections in a tree go.
- `src/risk.rs`, `src/findings.rs`, `src/analysis.rs`: risks, what a node tells of them, and the
  report on a command.
- `src/laws/`: what holds of the library as a whole.

The analysis is exact for a given syntax tree. Which tree a command has is the grammar's: for a
command in ASCII it is a function of the command. Outside ASCII the grammar's scanner asks the C
library, so there the contracts say that the tree is made of the nodes of a tree that was parsed
from the command, and leave open which one that is.

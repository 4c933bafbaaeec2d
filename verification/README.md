# skref

A library and command-line tool for Agent Skills (`SKILL.md` files with YAML
frontmatter): it validates skills, reads their properties as JSON, and renders
the `<available_skills>` block for agent prompts. The library in `src/` is
verified with Verus; `app/` holds the command line and the file-system access.

Layout of `src/`:

- `text.rs`, `order.rs`: white space, trimming, decimal rendering, joining, and
  the lexicographic order with sorted, duplicate-free string lists.
- `yaml.rs`, `yaml_source.rs`: the frontmatter value model, and reading YAML
  through `serde_yaml` with every scalar coerced to its string form.
- `parser.rs`: frontmatter splitting and property reading.
- `validator.rs`, `constants.rs`: the validation rules and the accepted fields.
- `models.rs`: skill properties and their JSON form (through `serde_json`).
- `prompt.rs`: HTML escaping and the prompt block.
- `errors.rs`, `options.rs`: the error type and the options.

Validation rules:

| Field | Rule |
|-------|------|
| `name` | Required. At most 64 characters, lowercase, no leading, trailing or consecutive hyphens, only letters, digits and hyphens, equal to the directory's name (the final component of its path) after NFKC normalization. |
| `description` | Required. Non-empty, at most 1024 characters. |
| `compatibility` | Optional. A string of at most 500 characters. |
| `metadata` | Optional. A key/value mapping. |
| `license`, `allowed-tools` | Optional. |
| other fields | Rejected unless accepted (`license`, `allowed-tools`, `metadata`, and with the option, the extended fields). |

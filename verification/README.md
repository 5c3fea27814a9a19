# easydc

A web console for Samba Active Directory domain controllers: users, groups,
computers, organizational units, AD-integrated DNS and Group Policy Objects,
managed over LDAP.

The library under `src/` is written in Verus and holds the console's logic,
with contracts that Verus proves (calls into std, bcrypt and uuid go
through a few trusted wrappers):

- `text`, `encoding`: character-level string helpers (split, join, trim,
  decimal formatting and parsing), UTF-8, UTF-16LE passwords and hex.
- `dns`: the MS-DNSP encodings Samba uses in `dnsRecord` (names, TXT,
  addresses, whole records), with round-trip laws.
- `sort`: a stable sort by text key.
- `directory`: search entries and the user, group, member and computer
  lists; lookups and the domain name of a base DN.
- `requests`: the entries and modifications that create and change users,
  groups and OUs, with laws on what a later read shows.
- `policy`: the `gPLink` codec, GPO lists, linking and unlinking.
- `units`: OU depth, tree order and OU lists.
- `zones`: zone and node lists and DNS record changes.
- `searches`: where each directory search starts, its scope, filter and
  attributes.
- `web`, `forms`: sessions, first-run setup, login checks, audit outcomes
  and the forms the pages post.

`app/` is the server around it (axum, sqlx, tera, ldap3): it performs the
searches and changes the library plans and renders the pages.

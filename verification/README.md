# report_bot

The compatibility-report pipeline of the FastForward Engine profile
database, as a Verus-verified library, and the small program that runs it.

Anyone can open a compatibility report as a GitHub issue. The bot reads the
open reports, counts one report per reporter and title, and writes proposals
that a maintainer reviews in a pull request. It never edits or signs the
catalogue itself.

## Layout

- `src/` — the verified library.
  - `text.rs`: characters, trimming, the order of texts.
  - `store_kind.rs`, `ids.rs`, `launch_flags.rs`, `form.rs`: the report
    form's vocabulary — stores, the shapes of ids and executable names, the
    one shape a launch option may take, and how a title is named
    (`steam:42`, `exe:Game.exe`) and read back.
  - `report.rs`: a session report and the redaction of user-profile paths.
  - `parse.rs`: reading a rendered issue form back.
  - `profiles_lite.rs`: what the catalogue says of a title.
  - `speed.rs`: speed factors as order keys.
  - `tally.rs`: one vote per reporter and title, grouped and ordered.
  - `aggregate.rs`: the evidence bar, profile and launch-option proposals.
  - `review.rs`: how reporter text is shown, inert, in the pull request.
- `app/` — the command-line program: files, JSON, the command line, and
  speed factors as binary64 numbers.
- `tests/` — tests run against the compiled library.

Every public function of the library states its result exactly over spec
functions; the properties that span functions (an identity reads back as
written, one vote per reporter, a proposal never touches a BLOCKED title,
reporter text is shown inert) are public proof functions.

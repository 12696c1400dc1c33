# grav-tray-rs

A macOS menu bar tray that shows the quota of an authenticated Antigravity CLI
(`agy`) session.

- `src/` is the library, verified with Verus:
  - `quota`: the quota model, how the bucket shown in the menu bar is chosen,
    how log lines announce the language server's HTTP port, which logs are
    read, and the search for a session that answers;
  - `launch_agent`: the LaunchAgent property list and the `launchctl`
    conversations that install and remove it;
  - `settings`: stored preferences and their checks;
  - `display`: labels, popover height and scheduling decisions;
  - `refresh`: the record of the latest quota fetch;
  - `cli`: the command line;
  - `text`: decimal formatting, trimming and character helpers.
- `app/` is the program around it: file and network access, JSON, the
  `launchctl` processes and the AppKit user interface.
- `tests/` runs the library on concrete values.

# buzz

Verified helpers of the Buzz command line and desktop application:

- `limits`: the `--limit` that applies to a read and the note printed when a
  read came back full.
- `path`, `appimage_env`: a component model of Unix paths, and the
  environment a child process gets when the application runs from an
  AppImage (mount entries filtered out of search paths, saved `ORIGINAL_*`
  values restored).
- `json`, `agent_settings`: JSON settings documents (parsed by `serde_json`
  behind one trusted wrapper), the layering of project settings over user
  settings, and the configuration projected out of the settings files' texts.
- `text`: characters, decimal notation and splitting.

`app/` reads the environment and the files and applies the results.

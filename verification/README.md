# irzean

The content logic of a small server-rendered site generator, verified with
Verus. Writings live as Markdown files with a YAML header in a git
repository; the site lists them, indexes them for search, groups them by
tag and publishes a sitemap.

## Layout

- `src/` — the verified library
  - `date`: `yyyy-mm-dd` dates, their parsing and display, calendar days
    and moments in RFC 3339 form
  - `fossil`: writings, their front matter, and their newest-first order
  - `tags`, `cache`: the tag index, the cached writings and tag pages
  - `paths`: slugs of file paths and the site's addresses
  - `sitemap`: sitemap entries and their XML
  - `search`, `index`: search queries and search index entries
  - `markdown`, `assets`: Markdown preprocessing and rendering, stylesheets
  - `templates`: what each page shows
  - `refresh`: the background refresh of the cache, step by step
  - `site`, `err`, `text`: settings, navigation, errors, text helpers
- `tests/` — tests of the library
- `app/` — the server: environment, git, file walking, YAML, the search
  index, the Sass compiler (it reads imported files from disk), templates
  and HTTP routes

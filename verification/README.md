# mdutil

Checks the image links of Markdown documents, and embeds the images that they point to: an image
link `![alt](target)` becomes `![alt][id]`, and `[id]:data:image/png;base64,...` is added to the
end of the document.

    mdutil check docs -r
    mdutil replace docs -O out

What is decided and computed stands in `src/` and is verified with [Verus]; `app/` reads and
writes files, sends requests and prints. Paths are those of Unix.

| module         | what it holds                                                            |
|----------------|--------------------------------------------------------------------------|
| `text`         | UTF-8, words, numbers and white space                                    |
| `path`         | paths: components, parents, extensions, joining                          |
| `markdown`     | where the image links of a text are                                      |
| `link`         | what a link points to, and which links are looked at                     |
| `image_format` | image formats by their names and by the first bytes of a file            |
| `encode`       | base64 and timestamps                                                    |
| `check`        | whether a link points to an image                                        |
| `embed`        | the jobs that load images, and the rewriting of a document               |
| `image`        | checking and embedding a whole document                                  |
| `tree`         | what a folder holds                                                      |
| `cmd`          | the command line, and which documents are read                           |
| `output`       | where the output for a document goes                                     |
| `report`       | what is printed                                                          |

[Verus]: https://github.com/verus-lang/verus
